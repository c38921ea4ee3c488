//! The segment that servers and clients share: a header, coordination slots,
//! and a pool of data blocks.

use crate::error::{self, CrossbarError};
use crate::memory::{self, Access, Accesses, SharedMemory};
use crate::protocol::pool::{self, PoolLayout};
use crate::protocol::reading;
use crate::text::{self, add_number, add_text};
use vstd::prelude::*;

verus! {

broadcast use crate::memory::group_memory;

/// The version of the layout.
pub const VERSION: u32 = 2;

/// Size of the header.
pub const GLOBAL_HEADER_SIZE: usize = 128;

/// Size of a slot.
pub const SLOT_SIZE: usize = 64;

/// The index that stands for "no block".
pub const NO_BLOCK: u32 = 0xFFFF_FFFF;

/// The smallest size of a block.
pub const MIN_BLOCK_SIZE: u32 = 64;

/// State of a slot that can be acquired.
pub const FREE: u32 = 0;

/// State of a slot with a request for the server.
pub const REQUEST_READY: u32 = 1;

/// State of a slot whose request the server works on.
pub const PROCESSING: u32 = 2;

/// State of a slot with a response for the client.
pub const RESPONSE_READY: u32 = 3;

/// State of a slot that a client has acquired and writes to.
pub const WRITING: u32 = 4;

/// Offset of the version.
pub const H_VERSION: usize = 0x08;

/// Offset of the number of slots.
pub const H_SLOT_COUNT: usize = 0x0C;

/// Offset of the number of blocks.
pub const H_BLOCK_COUNT: usize = 0x10;

/// Offset of the size of a block.
pub const H_BLOCK_SIZE: usize = 0x14;

/// Offset of the heartbeat of the server.
pub const H_HEARTBEAT: usize = 0x18;

/// Offset of the process id of the server.
pub const H_PID: usize = 0x20;

/// Offset of the head of the free list.
pub const H_POOL_HEAD: usize = 0x28;

/// Offset of the flag that tells the server of work.
pub const H_NOTIFY: usize = 0x30;

/// Offset of the slot at which clients start to look for a free one.
pub const H_SLOT_HINT: usize = 0x34;

/// Offset of the number of sleeping server threads.
pub const H_WAITERS: usize = 0x38;

/// Offset of the slot at which the server starts to look for work.
pub const H_SERVER_SLOT_HINT: usize = 0x3C;

/// Offset of the state in a slot.
pub const S_STATE: usize = 0x00;

/// Offset of the sequence number in a slot.
pub const S_SEQUENCE: usize = 0x04;

/// Offset of the client id in a slot.
pub const S_CLIENT: usize = 0x08;

/// Offset of the timestamp in a slot.
pub const S_TIMESTAMP: usize = 0x10;

/// Offset of the method in a slot.
pub const S_METHOD: usize = 0x18;

/// Offset of the URI length in a slot.
pub const S_URI_LEN: usize = 0x1C;

/// Offset of the body length in a slot.
pub const S_BODY_LEN: usize = 0x20;

/// Offset of the length of the headers in a slot.
pub const S_HEADERS_LEN: usize = 0x24;

/// Offset of the request block in a slot.
pub const S_REQUEST_BLOCK: usize = 0x28;

/// Offset of the response block in a slot.
pub const S_RESPONSE_BLOCK: usize = 0x2C;

/// Offset of the response status in a slot.
pub const S_STATUS: usize = 0x30;

/// Offset of the length of the response body in a slot.
pub const S_RESPONSE_BODY_LEN: usize = 0x34;

/// Offset of the length of the response headers in a slot.
pub const S_RESPONSE_HEADERS_LEN: usize = 0x38;

/// The bytes at the start of a segment: `XBAR_V2` and a zero.
pub open spec fn magic() -> Seq<u8> {
    seq![88u8, 66, 65, 82, 95, 86, 50, 0]
}

fn magic_bytes() -> (r: Vec<u8>)
    ensures
        r@ == magic(),
{
    let r: Vec<u8> = vec![88u8, 66, 65, 82, 95, 86, 50, 0];
    assert(r@ =~= magic());
    r
}

/// The parameters of a segment.
#[derive(Debug, Clone, Copy, PartialEq, Eq, Structural)]
pub struct ShmConfig {
    /// Number of slots.
    pub slot_count: u32,
    /// Number of blocks.
    pub block_count: u32,
    /// Size of a block in bytes.
    pub block_size: u32,
    /// Milliseconds between two heartbeats of the server.
    pub heartbeat_interval_ms: u64,
    /// Milliseconds after which a server without heartbeat counts as dead.
    pub stale_timeout_ms: u64,
}

/// The parameters that are used where none are given.
pub open spec fn default_config() -> ShmConfig {
    ShmConfig {
        slot_count: 64,
        block_count: 192,
        block_size: 65536,
        heartbeat_interval_ms: 100,
        stale_timeout_ms: 5000,
    }
}

impl Default for ShmConfig {
    fn default() -> (r: ShmConfig)
        ensures
            r == default_config(),
    {
        ShmConfig {
            slot_count: 64,
            block_count: 192,
            block_size: 65536,
            heartbeat_interval_ms: 100,
            stale_timeout_ms: 5000,
        }
    }
}

/// The path of the file of a segment. On Linux it is in the file system for
/// shared memory, elsewhere among the temporary files.
pub fn shm_path(name: &str, linux: bool) -> (r: String)
    ensures
        r@ == (if linux {
            "/dev/shm/crossbar-"@ + name@
        } else {
            "/tmp/crossbar-shm-"@ + name@
        }),
{
    if linux {
        add_text(text::text("/dev/shm/crossbar-"), name)
    } else {
        add_text(text::text("/tmp/crossbar-shm-"), name)
    }
}

/// Size of a segment.
pub open spec fn segment_size(slots: int, blocks: int, block_size: int) -> int {
    GLOBAL_HEADER_SIZE + slots * SLOT_SIZE + blocks * block_size
}

/// Size of a segment, or `None` if it does not fit in the address space.
pub fn region_size(config: &ShmConfig) -> (r: Option<usize>)
    ensures
        match r {
            Some(n) => n == segment_size(
                config.slot_count as int,
                config.block_count as int,
                config.block_size as int,
            ),
            None => segment_size(
                config.slot_count as int,
                config.block_count as int,
                config.block_size as int,
            ) > usize::MAX,
        },
{
    proof {
        let a = config.block_count as int;
        let b = config.block_size as int;
        assert(0 <= a * b) by (nonlinear_arith)
            requires
                0 <= a,
                0 <= b,
        ;
    }
    let slots: usize = match (config.slot_count as usize).checked_mul(SLOT_SIZE) {
        Some(n) => n,
        None => {
            return None;
        },
    };
    let blocks: usize = match (config.block_count as usize).checked_mul(
        config.block_size as usize,
    ) {
        Some(n) => n,
        None => {
            return None;
        },
    };
    match GLOBAL_HEADER_SIZE.checked_add(slots) {
        Some(n) => n.checked_add(blocks),
        None => None,
    }
}

/// What is wrong with the parameters of a segment to be created.
pub open spec fn config_fault(c: ShmConfig) -> Option<error::CrossbarErrorView> {
    if c.slot_count == 0 {
        Some(error::CrossbarErrorView::ShmInvalidRegion("slot_count must be > 0"@))
    } else if c.block_count == 0 {
        Some(error::CrossbarErrorView::ShmInvalidRegion("block_count must be > 0"@))
    } else if c.block_size < MIN_BLOCK_SIZE {
        Some(error::CrossbarErrorView::ShmInvalidRegion(small_block_text(c.block_size)))
    } else if segment_size(c.slot_count as int, c.block_count as int, c.block_size as int)
        > usize::MAX {
        Some(error::CrossbarErrorView::ShmInvalidRegion("layout size overflows"@))
    } else {
        None
    }
}

/// The text of the error about blocks that are too small.
pub open spec fn small_block_text(size: u32) -> Seq<char> {
    "block_size must be >= 64 (got "@ + text::decimal(size as nat) + ")"@
}

fn small_block(size: u32) -> (r: CrossbarError)
    ensures
        r@ == error::CrossbarErrorView::ShmInvalidRegion(small_block_text(size)),
{
    let s: String = add_number(text::text("block_size must be >= 64 (got "), size as u64);
    CrossbarError::ShmInvalidRegion(add_text(s, ")"))
}

fn invalid(m: &str) -> (r: CrossbarError)
    ensures
        r@ == error::CrossbarErrorView::ShmInvalidRegion(m@),
{
    CrossbarError::ShmInvalidRegion(text::text(m))
}

/// The parameters in a header.
pub open spec fn header_config(m: Seq<u8>) -> ShmConfig {
    ShmConfig {
        slot_count: memory::u32_at(m, H_SLOT_COUNT as int),
        block_count: memory::u32_at(m, H_BLOCK_COUNT as int),
        block_size: memory::u32_at(m, H_BLOCK_SIZE as int),
        ..default_config()
    }
}

/// What is wrong with a segment to be opened.
pub open spec fn header_fault(m: Seq<u8>) -> Option<error::CrossbarErrorView> {
    let c = header_config(m);
    let version = memory::u32_at(m, H_VERSION as int);
    let slots = c.slot_count * SLOT_SIZE;
    let size = segment_size(c.slot_count as int, c.block_count as int, c.block_size as int);
    if m.len() < GLOBAL_HEADER_SIZE {
        Some(error::CrossbarErrorView::ShmInvalidRegion("region too small for header"@))
    } else if memory::bytes_at(m, 0, 8) != magic() {
        Some(
            error::CrossbarErrorView::ShmInvalidRegion("invalid magic bytes (expected XBAR_V2)"@),
        )
    } else if version != VERSION {
        Some(
            error::CrossbarErrorView::ShmInvalidRegion(
                "unsupported version "@ + text::decimal(version as nat) + ", expected 2"@,
            ),
        )
    } else if slots > usize::MAX {
        Some(error::CrossbarErrorView::ShmInvalidRegion("layout size overflows (slots)"@))
    } else if size > usize::MAX {
        Some(error::CrossbarErrorView::ShmInvalidRegion("layout size overflows"@))
    } else if m.len() < size {
        Some(
            error::CrossbarErrorView::ShmInvalidRegion(
                "region size "@ + text::decimal(m.len()) + " < expected "@ + text::decimal(
                    size as nat,
                ),
            ),
        )
    } else if c.block_size < MIN_BLOCK_SIZE {
        Some(error::CrossbarErrorView::ShmInvalidRegion(small_block_text(c.block_size)))
    } else {
        None
    }
}

/// Offset of a slot.
pub open spec fn slot_off(slot: int) -> int {
    GLOBAL_HEADER_SIZE + slot * SLOT_SIZE
}

/// The segment with its header written.
pub open spec fn with_header(c: ShmConfig, m: Seq<u8>, pid: u32, now: u64) -> Seq<u8> {
    let m = memory::put(m, 0, magic());
    let m = memory::put32(m, H_VERSION as int, VERSION);
    let m = memory::put32(m, H_SLOT_COUNT as int, c.slot_count);
    let m = memory::put32(m, H_BLOCK_COUNT as int, c.block_count);
    let m = memory::put32(m, H_BLOCK_SIZE as int, c.block_size);
    let m = memory::put64(m, H_PID as int, pid as u64);
    memory::put64(m, H_HEARTBEAT as int, now)
}

/// The segment with the first `n` slots free.
pub open spec fn with_free_slots(m: Seq<u8>, n: nat) -> Seq<u8>
    decreases n,
{
    if n == 0 {
        m
    } else {
        let i = n - 1;
        let m = with_free_slots(m, i as nat);
        let m = memory::put32(m, slot_off(i) + S_STATE, FREE);
        let m = memory::put32(m, slot_off(i) + S_REQUEST_BLOCK, NO_BLOCK);
        memory::put32(m, slot_off(i) + S_RESPONSE_BLOCK, NO_BLOCK)
    }
}

/// The pool of a segment.
pub open spec fn pool_of(c: ShmConfig) -> PoolLayout {
    PoolLayout {
        head: H_POOL_HEAD,
        base: (GLOBAL_HEADER_SIZE + c.slot_count * SLOT_SIZE) as usize,
        block_size: c.block_size,
        block_count: c.block_count,
        checks_links: false,
    }
}

/// A new segment.
pub open spec fn created(c: ShmConfig, m: Seq<u8>, pid: u32, now: u64) -> Seq<u8> {
    pool_of(c).after_init(with_free_slots(with_header(c, m, pid, now), c.slot_count as nat))
}

/// State of a slot.
pub open spec fn state_of(m: Seq<u8>, slot: int) -> u32 {
    memory::u32_at(m, slot_off(slot) + S_STATE)
}

/// A segment as one party sees it.
pub struct ShmRegion<M: SharedMemory> {
    /// The segment.
    pub mem: M,
    /// Number of slots.
    pub slot_count: u32,
    /// Number of blocks.
    pub block_count: u32,
    /// Size of a block in bytes.
    pub block_size: u32,
    /// The parameters of the segment.
    pub config: ShmConfig,
}

pub proof fn lemma_slot(c: ShmConfig, slot: int)
    requires
        0 <= slot < c.slot_count,
    ensures
        GLOBAL_HEADER_SIZE <= slot_off(slot),
        slot_off(slot) + SLOT_SIZE <= GLOBAL_HEADER_SIZE + c.slot_count * SLOT_SIZE,
        slot_off(slot) + SLOT_SIZE <= segment_size(
            c.slot_count as int,
            c.block_count as int,
            c.block_size as int,
        ),
{
    let a = c.block_count as int;
    let b = c.block_size as int;
    assert(0 <= a * b) by (nonlinear_arith)
        requires
            0 <= a,
            0 <= b,
    ;
}

/// A slot is moved from one state to another, or is found in a third one: by an
/// exchange, so that only one party moves it.
pub open spec fn moves_slot(a: Access, slot: int, from: u32, to: u32, done: bool) -> bool {
    a matches Access::Exchange32 { off, current, new, found } && {
        &&& off == slot_off(slot) + S_STATE
        &&& current == from
        &&& new == to
        &&& (found is Ok) == done
    }
}

/// A waiting slot is claimed, from the state in which it was seen.
pub open spec fn claims_stale(a: Access, slot: int, state: u32) -> bool {
    moves_slot(a, slot, state, PROCESSING, true)
}

/// What letting go of the block does that the word at `off` names: the word is looked
/// at, and a block that it names goes back to the pool before the word names none.
pub open spec fn gives_and_names_none(c: ShmConfig, ops: Accesses, off: int) -> bool {
    exists|block: u32, rest: Accesses|
        {
            &&& ops == seq![Access::Look32 { off, found: block }] + rest
            &&& #[trigger] gives_named(c, rest, off, block)
        }
}

/// What is done about a block after it was seen in the word at `off`.
pub open spec fn gives_named(c: ShmConfig, ops: Accesses, off: int, block: u32) -> bool {
    if block == NO_BLOCK {
        ops.len() == 0
    } else {
        exists|given: Accesses|
            {
                &&& ops == given.push(Access::Word32 { off, v: NO_BLOCK })
                &&& #[trigger] pool_of(c).gives(given, block)
            }
    }
}

/// What recovering a slot does: its state is looked at, and its time if it is waiting.
/// A slot that has been waiting for too long is claimed, loses its blocks, and is free.
pub open spec fn recovers(
    c: ShmConfig,
    ops: Accesses,
    slot: int,
    timeout: u64,
    now: u64,
) -> bool {
    exists|state: u32, rest: Accesses|
        {
            &&& ops == seq![Access::Look32 { off: slot_off(slot) + S_STATE, found: state }] + rest
            &&& #[trigger] recovers_from(c, rest, slot, state, timeout, now)
        }
}

/// What is done about a slot after its state was seen.
pub open spec fn recovers_from(
    c: ShmConfig,
    ops: Accesses,
    slot: int,
    state: u32,
    timeout: u64,
    now: u64,
) -> bool {
    if state == FREE || state == PROCESSING {
        ops.len() == 0
    } else {
        exists|at: u64, rest: Accesses|
            {
                &&& ops == seq![reading::look(slot_off(slot) + S_TIMESTAMP, at)] + rest
                &&& #[trigger] recovers_since(c, rest, slot, state, at, timeout, now)
            }
    }
}

/// What is done about a waiting slot after its time was seen.
pub open spec fn recovers_since(
    c: ShmConfig,
    ops: Accesses,
    slot: int,
    state: u32,
    at: u64,
    timeout: u64,
    now: u64,
) -> bool {
    if now - at <= timeout {
        ops.len() == 0
    } else {
        ||| ops.len() == 1 && moves_slot(ops[0], slot, state, PROCESSING, false)
        ||| exists|a: Access, freed: Accesses, freed_too: Accesses|
            {
                &&& ops == seq![a] + freed + freed_too + seq![state_store(slot, FREE)]
                &&& #[trigger] claims_stale(a, slot, state)
                &&& #[trigger] gives_and_names_none(c, freed, slot_off(slot) + S_REQUEST_BLOCK)
                &&& #[trigger] gives_and_names_none(
                    c,
                    freed_too,
                    slot_off(slot) + S_RESPONSE_BLOCK,
                )
            }
    }
}

/// Each of these is what recovering the slot of its number does.
pub open spec fn recovers_each(
    c: ShmConfig,
    parts: Seq<Accesses>,
    timeout: u64,
    now: u64,
) -> bool {
    forall|i: int|
        0 <= i < parts.len() ==> #[trigger] recovers(c, parts[i], i, timeout, now)
}

/// Between two records the first `n` slots were recovered, in order.
pub open spec fn recovered_slots(
    c: ShmConfig,
    before: Accesses,
    after: Accesses,
    n: nat,
    timeout: u64,
    now: u64,
) -> bool {
    exists|parts: Seq<Accesses>|
        {
            &&& parts.len() == n
            &&& after == before + reading::joined(parts)
            &&& #[trigger] recovers_each(c, parts, timeout, now)
        }
}

/// What acquiring a slot does once it is claimed.
pub open spec fn acquires(a: Access, i: u32, client_id: u64, was: u32, now: u64) -> Accesses {
    let s = slot_off(i as int);
    seq![
        a,
        Access::Word64 { off: s + S_CLIENT, v: client_id },
        Access::Add32 { off: s + S_SEQUENCE, v: 1, was },
        Access::Word64 { off: s + S_TIMESTAMP, v: now },
        Access::Word32 { off: H_SLOT_HINT as int, v: memory::wrapping_sum_u32(i, 1) },
    ]
}

/// The last thing that was done is to acquire a slot.
pub open spec fn acquired_last(all: Accesses, i: u32, client_id: u64, now: u64) -> bool {
    exists|a: Access, was: u32|
        {
            &&& #[trigger] moves_slot(a, i as int, FREE, WRITING, true)
            &&& reading::ends_with(all, #[trigger] acquires(a, i, client_id, was, now))
        }
}

/// What a thread does that waits for work: it looks whether there is some, and takes
/// note of it, or counts as sleeping.
pub open spec fn work_looks(found: u32, was: u32) -> Accesses {
    let look = Access::Look32 { off: H_NOTIFY as int, found };
    if found != 0 {
        seq![look, Access::Word32 { off: H_NOTIFY as int, v: 0 }]
    } else {
        seq![look, Access::Add32 { off: H_WAITERS as int, v: 1, was }]
    }
}

/// A slot gets a state.
pub open spec fn state_store(slot: int, state: u32) -> Access {
    Access::Word32 { off: slot_off(slot) + S_STATE, v: state }
}

/// The servers are told of work.
pub open spec fn server_told() -> Access {
    Access::Word32 { off: H_NOTIFY as int, v: 1 }
}

impl<M: SharedMemory> ShmRegion<M> {
    /// The segment has room for its slots and blocks.
    pub open spec fn wf(&self) -> bool {
        &&& self.slot_count == self.config.slot_count
        &&& self.block_count == self.config.block_count
        &&& self.block_size == self.config.block_size
        &&& self.block_size >= MIN_BLOCK_SIZE
        &&& segment_size(self.slot_count as int, self.block_count as int, self.block_size as int)
            <= self.mem.image().len() <= usize::MAX
    }

    /// `other` is the same segment at a later moment.
    pub open spec fn same_segment(&self, other: &Self) -> bool {
        &&& other.config == self.config
        &&& other.slot_count == self.slot_count
        &&& other.block_count == self.block_count
        &&& other.block_size == self.block_size
        &&& other.mem.image().len() == self.mem.image().len()
        &&& other.mem.exclusive() == self.mem.exclusive()
        &&& other.mem.contention() <= self.mem.contention()
    }

    /// The size of the segment that the parameters ask for.
    pub fn plan(config: &ShmConfig) -> (r: Result<usize, CrossbarError>)
        ensures
            match config_fault(*config) {
                None => r matches Ok(n) && n == segment_size(
                    config.slot_count as int,
                    config.block_count as int,
                    config.block_size as int,
                ),
                Some(f) => r matches Err(e) && e@ == f,
            },
    {
        if config.slot_count == 0 {
            return Err(invalid("slot_count must be > 0"));
        }
        if config.block_count == 0 {
            return Err(invalid("block_count must be > 0"));
        }
        if config.block_size < MIN_BLOCK_SIZE {
            return Err(small_block(config.block_size));
        }
        match region_size(config) {
            Some(n) => Ok(n),
            None => Err(invalid("layout size overflows")),
        }
    }

    /// Makes a new segment of some memory: a header with the process id and
    /// heartbeat of the server, free slots, and all blocks in the pool.
    pub fn create(config: &ShmConfig, mem: M, pid: u32, now: u64) -> (r: ShmRegion<M>)
        requires
            config_fault(*config) is None,
            mem.image().len() >= segment_size(
                config.slot_count as int,
                config.block_count as int,
                config.block_size as int,
            ),
        ensures
            r.wf(),
            r.config == *config,
            r.mem.image().len() == mem.image().len(),
            r.mem.exclusive() == mem.exclusive(),
            mem.exclusive() ==> r.mem.image() == created(*config, mem.image(), pid, now),
    {
        proof {
            lemma_slot(*config, 0);
        }
        let size: usize = mem.size();
        let mut r: ShmRegion<M> = ShmRegion {
            mem,
            slot_count: config.slot_count,
            block_count: config.block_count,
            block_size: config.block_size,
            config: *config,
        };
        let start: Vec<u8> = magic_bytes();
        r.mem.write(0, start.as_slice());
        r.mem.store_u32(H_VERSION, VERSION);
        r.mem.store_u32(H_SLOT_COUNT, config.slot_count);
        r.mem.store_u32(H_BLOCK_COUNT, config.block_count);
        r.mem.store_u32(H_BLOCK_SIZE, config.block_size);
        r.mem.store_u64(H_PID, pid as u64);
        r.update_heartbeat(now);
        let ghost m = with_header(*config, mem.image(), pid, now);
        let mut i: u32 = 0;
        while i < config.slot_count
            invariant
                i <= config.slot_count,
                r.wf(),
                r.config == *config,
                r.mem.image().len() == mem.image().len(),
                r.mem.exclusive() == mem.exclusive(),
                mem.exclusive() ==> r.mem.image() == with_free_slots(m, i as nat),
            decreases config.slot_count - i,
        {
            proof {
                lemma_slot(*config, i as int);
            }
            r.set_slot_state(i, FREE);
            r.set_request_block_idx(i, NO_BLOCK);
            r.set_response_block_idx(i, NO_BLOCK);
            i = i + 1;
        }
        r.init_free_list();
        r
    }

    /// Opens a segment that is there. Whatever it holds, what is accepted has
    /// room for its slots and blocks.
    pub fn open(mem: M) -> (r: Result<ShmRegion<M>, CrossbarError>)
        ensures
            r matches Ok(s) ==> s.wf() && s.mem == mem,
            mem.exclusive() ==> match header_fault(mem.image()) {
                None => r matches Ok(s) && s.config == header_config(mem.image()),
                Some(f) => r matches Err(e) && e@ == f,
            },
    {
        let len: usize = mem.size();
        if len < GLOBAL_HEADER_SIZE {
            return Err(invalid("region too small for header"));
        }
        let found: Vec<u8> = mem.read(0, 8);
        let expected: Vec<u8> = magic_bytes();
        if !memory::same_bytes(found.as_slice(), expected.as_slice()) {
            return Err(invalid("invalid magic bytes (expected XBAR_V2)"));
        }
        let version: u32 = mem.load_u32(H_VERSION);
        if version != VERSION {
            let s: String = add_number(text::text("unsupported version "), version as u64);
            return Err(CrossbarError::ShmInvalidRegion(add_text(s, ", expected 2")));
        }
        let defaults: ShmConfig = ShmConfig::default();
        let config: ShmConfig = ShmConfig {
            slot_count: mem.load_u32(H_SLOT_COUNT),
            block_count: mem.load_u32(H_BLOCK_COUNT),
            block_size: mem.load_u32(H_BLOCK_SIZE),
            heartbeat_interval_ms: defaults.heartbeat_interval_ms,
            stale_timeout_ms: defaults.stale_timeout_ms,
        };
        if (config.slot_count as usize).checked_mul(SLOT_SIZE).is_none() {
            return Err(invalid("layout size overflows (slots)"));
        }
        let size: usize = match region_size(&config) {
            Some(n) => n,
            None => {
                return Err(invalid("layout size overflows"));
            },
        };
        if len < size {
            let s: String = add_number(text::text("region size "), len as u64);
            let s: String = add_number(add_text(s, " < expected "), size as u64);
            return Err(CrossbarError::ShmInvalidRegion(s));
        }
        if config.block_size < MIN_BLOCK_SIZE {
            return Err(small_block(config.block_size));
        }
        Ok(
            ShmRegion {
                mem,
                slot_count: config.slot_count,
                block_count: config.block_count,
                block_size: config.block_size,
                config,
            },
        )
    }

    /// The pool of the segment.
    pub fn pool(&self) -> (r: PoolLayout)
        requires
            self.wf(),
        ensures
            r == pool_of(self.config),
            r.fits(self.mem.image().len()),
    {
        proof {
            let a = self.block_count as int;
            let b = self.block_size as int;
            assert(0 <= a * b) by (nonlinear_arith)
                requires
                    0 <= a,
                    0 <= b,
            ;
        }
        PoolLayout {
            head: H_POOL_HEAD,
            base: GLOBAL_HEADER_SIZE + self.slot_count as usize * SLOT_SIZE,
            block_size: self.block_size,
            block_count: self.block_count,
            checks_links: false,
        }
    }

    fn init_free_list(&mut self)
        requires
            old(self).wf(),
        ensures
            final(self).wf(),
            old(self).same_segment(final(self)),
            old(self).mem.exclusive() ==> final(self).mem.image() == pool_of(
                old(self).config,
            ).after_init(old(self).mem.image()),
    {
        let pool: PoolLayout = self.pool();
        pool.init_free_list(&mut self.mem);
    }

    /// Takes a block from the pool.
    pub fn alloc_block(&mut self) -> (r: Option<u32>)
        requires
            old(self).wf(),
        ensures
            final(self).wf(),
            old(self).same_segment(final(self)),
            r matches Some(idx) ==> idx < old(self).block_count,
            pool_of(old(self).config).took(old(self).mem, final(self).mem, r),
            old(self).mem.exclusive() ==> {
                &&& r == pool_of(old(self).config).alloc_choice(old(self).mem.image())
                &&& final(self).mem.image() == pool_of(old(self).config).after_alloc(
                    old(self).mem.image(),
                )
            },
    {
        let pool: PoolLayout = self.pool();
        pool.alloc_block(&mut self.mem)
    }

    /// Gives a block back to the pool. An index outside of the pool is ignored.
    pub fn free_block(&mut self, idx: u32)
        requires
            old(self).wf(),
        ensures
            final(self).wf(),
            old(self).same_segment(final(self)),
            pool_of(old(self).config).gave(old(self).mem, final(self).mem, idx),
            old(self).mem.exclusive() ==> final(self).mem.image() == pool_of(
                old(self).config,
            ).after_free(old(self).mem.image(), idx),
    {
        let pool: PoolLayout = self.pool();
        pool.free_block(&mut self.mem, idx);
    }

    fn slot_base(&self, idx: u32) -> (r: usize)
        requires
            self.wf(),
            idx < self.slot_count,
        ensures
            r == slot_off(idx as int),
            r + SLOT_SIZE <= self.mem.image().len() <= usize::MAX,
    {
        proof {
            lemma_slot(self.config, idx as int);
        }
        GLOBAL_HEADER_SIZE + idx as usize * SLOT_SIZE
    }

    fn read_slot_u32(&self, idx: u32, offset: usize) -> (r: u32)
        requires
            self.wf(),
            idx < self.slot_count,
            offset + 4 <= SLOT_SIZE,
        ensures
            self.mem.exclusive() ==> r == memory::u32_at(
                self.mem.image(),
                slot_off(idx as int) + offset,
            ),
    {
        let base: usize = self.slot_base(idx);
        self.mem.load_u32(base + offset)
    }

    fn write_slot_u32(&mut self, idx: u32, offset: usize, val: u32)
        requires
            old(self).wf(),
            idx < old(self).slot_count,
            offset + 4 <= SLOT_SIZE,
        ensures
            final(self).wf(),
            old(self).same_segment(final(self)),
            final(self).mem.accesses() == old(self).mem.accesses().push(
                (Access::Word32 { off: slot_off(idx as int) + offset, v: val }),
            ),
            old(self).mem.exclusive() ==> final(self).mem.image() == memory::put32(
                old(self).mem.image(),
                slot_off(idx as int) + offset,
                val,
            ),
    {
        let base: usize = self.slot_base(idx);
        self.mem.store_u32(base + offset, val);
    }

    /// State of a slot.
    pub fn slot_state(&self, idx: u32) -> (r: u32)
        requires
            self.wf(),
            idx < self.slot_count,
        ensures
            self.mem.exclusive() ==> r == state_of(self.mem.image(), idx as int),
    {
        self.read_slot_u32(idx, S_STATE)
    }

    /// Sets the state of a slot.
    pub fn set_slot_state(&mut self, idx: u32, val: u32)
        requires
            old(self).wf(),
            idx < old(self).slot_count,
        ensures
            final(self).wf(),
            old(self).same_segment(final(self)),
            final(self).mem.accesses() == old(self).mem.accesses().push(
                (Access::Word32 { off: slot_off(idx as int) + S_STATE, v: val }),
            ),
            old(self).mem.exclusive() ==> final(self).mem.image() == memory::put32(
                old(self).mem.image(),
                slot_off(idx as int) + S_STATE,
                val,
            ),
    {
        self.write_slot_u32(idx, S_STATE, val);
    }

    /// Moves a slot from one state to another, if it is in that state.
    pub fn advance_slot(&mut self, idx: u32, from: u32, to: u32) -> (r: bool)
        requires
            old(self).wf(),
            idx < old(self).slot_count,
        ensures
            final(self).wf(),
            old(self).same_segment(final(self)),
            exists|a: Access|
                {
                    &&& final(self).mem.accesses() == old(self).mem.accesses().push(a)
                    &&& #[trigger] moves_slot(a, idx as int, from, to, r)
                },
            old(self).mem.exclusive() ==> {
                &&& r == (state_of(old(self).mem.image(), idx as int) == from)
                &&& final(self).mem.image() == if r {
                    memory::put32(old(self).mem.image(), slot_off(idx as int) + S_STATE, to)
                } else {
                    old(self).mem.image()
                }
            },
    {
        let base: usize = self.slot_base(idx);
        let moved: Result<u32, u32> = self.mem.compare_exchange_u32(base + S_STATE, from, to);
        proof {
            let a = Access::Exchange32 {
                off: slot_off(idx as int) + S_STATE,
                current: from,
                new: to,
                found: moved,
            };
            assert(moves_slot(a, idx as int, from, to, moved is Ok));
        }
        moved.is_ok()
    }

    /// How often a slot was acquired.
    pub fn slot_sequence(&self, idx: u32) -> (r: u32)
        requires
            self.wf(),
            idx < self.slot_count,
        ensures
            self.mem.exclusive() ==> r == memory::u32_at(
                self.mem.image(),
                slot_off(idx as int) + S_SEQUENCE,
            ),
    {
        self.read_slot_u32(idx, S_SEQUENCE)
    }

    /// Sets the client of a slot.
    pub fn set_slot_client_id(&mut self, idx: u32, client_id: u64)
        requires
            old(self).wf(),
            idx < old(self).slot_count,
        ensures
            final(self).wf(),
            old(self).same_segment(final(self)),
            final(self).mem.accesses() == old(self).mem.accesses().push(
                (Access::Word64 { off: slot_off(idx as int) + S_CLIENT, v: client_id }),
            ),
            old(self).mem.exclusive() ==> final(self).mem.image() == memory::put64(
                old(self).mem.image(),
                slot_off(idx as int) + S_CLIENT,
                client_id,
            ),
    {
        let base: usize = self.slot_base(idx);
        self.mem.store_u64(base + S_CLIENT, client_id);
    }

    /// The client of a slot.
    pub fn slot_client_id(&self, idx: u32) -> (r: u64)
        requires
            self.wf(),
            idx < self.slot_count,
        ensures
            self.mem.exclusive() ==> r == memory::u64_at(
                self.mem.image(),
                slot_off(idx as int) + S_CLIENT,
            ),
    {
        let base: usize = self.slot_base(idx);
        self.mem.load_u64(base + S_CLIENT)
    }

    /// Sets the timestamp of a slot.
    pub fn touch_slot(&mut self, idx: u32, now: u64)
        requires
            old(self).wf(),
            idx < old(self).slot_count,
        ensures
            final(self).wf(),
            old(self).same_segment(final(self)),
            final(self).mem.accesses() == old(self).mem.accesses().push(
                (Access::Word64 { off: slot_off(idx as int) + S_TIMESTAMP, v: now }),
            ),
            old(self).mem.exclusive() ==> final(self).mem.image() == memory::put64(
                old(self).mem.image(),
                slot_off(idx as int) + S_TIMESTAMP,
                now,
            ),
    {
        let base: usize = self.slot_base(idx);
        self.mem.store_u64(base + S_TIMESTAMP, now);
    }

    /// The timestamp of a slot.
    pub fn slot_timestamp(&self, idx: u32) -> (r: u64)
        requires
            self.wf(),
            idx < self.slot_count,
        ensures
            self.mem.exclusive() ==> r == memory::u64_at(
                self.mem.image(),
                slot_off(idx as int) + S_TIMESTAMP,
            ),
    {
        let base: usize = self.slot_base(idx);
        self.mem.load_u64(base + S_TIMESTAMP)
    }

    /// Sets the method byte of a slot.
    pub fn set_slot_method(&mut self, idx: u32, method: u8)
        requires
            old(self).wf(),
            idx < old(self).slot_count,
        ensures
            final(self).wf(),
            old(self).same_segment(final(self)),
            final(self).mem.accesses() == old(self).mem.accesses().push(
                (Access::Bytes { off: slot_off(idx as int) + S_METHOD, data: seq![method] }),
            ),
            old(self).mem.exclusive() ==> final(self).mem.image() == memory::put(
                old(self).mem.image(),
                slot_off(idx as int) + S_METHOD,
                seq![method],
            ),
    {
        let base: usize = self.slot_base(idx);
        let b: Vec<u8> = vec![method];
        assert(b@ =~= seq![method]);
        self.mem.write(base + S_METHOD, b.as_slice());
    }

    /// The method byte of a slot.
    pub fn slot_method(&self, idx: u32) -> (r: u8)
        requires
            self.wf(),
            idx < self.slot_count,
        ensures
            self.mem.exclusive() ==> r == self.mem.image()[slot_off(idx as int) + S_METHOD],
    {
        let base: usize = self.slot_base(idx);
        let b: Vec<u8> = self.mem.read(base + S_METHOD, 1);
        b[0]
    }

    /// Sets the length of the URI.
    pub fn set_uri_len(&mut self, idx: u32, val: u32)
        requires
            old(self).wf(),
            idx < old(self).slot_count,
        ensures
            final(self).wf(),
            old(self).same_segment(final(self)),
            final(self).mem.accesses() == old(self).mem.accesses().push(
                (Access::Word32 { off: slot_off(idx as int) + S_URI_LEN, v: val }),
            ),
            old(self).mem.exclusive() ==> final(self).mem.image() == memory::put32(
                old(self).mem.image(),
                slot_off(idx as int) + S_URI_LEN,
                val,
            ),
    {
        self.write_slot_u32(idx, S_URI_LEN, val);
    }

    /// The length of the URI.
    pub fn uri_len(&self, idx: u32) -> (r: u32)
        requires
            self.wf(),
            idx < self.slot_count,
        ensures
            self.mem.exclusive() ==> r == memory::u32_at(
                self.mem.image(),
                slot_off(idx as int) + S_URI_LEN,
            ),
    {
        self.read_slot_u32(idx, S_URI_LEN)
    }

    /// Sets the length of the body of the request.
    pub fn set_body_len(&mut self, idx: u32, val: u32)
        requires
            old(self).wf(),
            idx < old(self).slot_count,
        ensures
            final(self).wf(),
            old(self).same_segment(final(self)),
            final(self).mem.accesses() == old(self).mem.accesses().push(
                (Access::Word32 { off: slot_off(idx as int) + S_BODY_LEN, v: val }),
            ),
            old(self).mem.exclusive() ==> final(self).mem.image() == memory::put32(
                old(self).mem.image(),
                slot_off(idx as int) + S_BODY_LEN,
                val,
            ),
    {
        self.write_slot_u32(idx, S_BODY_LEN, val);
    }

    /// The length of the body of the request.
    pub fn body_len(&self, idx: u32) -> (r: u32)
        requires
            self.wf(),
            idx < self.slot_count,
        ensures
            self.mem.exclusive() ==> r == memory::u32_at(
                self.mem.image(),
                slot_off(idx as int) + S_BODY_LEN,
            ),
    {
        self.read_slot_u32(idx, S_BODY_LEN)
    }

    /// Sets the length of the headers of the request.
    pub fn set_headers_data_len(&mut self, idx: u32, val: u32)
        requires
            old(self).wf(),
            idx < old(self).slot_count,
        ensures
            final(self).wf(),
            old(self).same_segment(final(self)),
            final(self).mem.accesses() == old(self).mem.accesses().push(
                (Access::Word32 { off: slot_off(idx as int) + S_HEADERS_LEN, v: val }),
            ),
            old(self).mem.exclusive() ==> final(self).mem.image() == memory::put32(
                old(self).mem.image(),
                slot_off(idx as int) + S_HEADERS_LEN,
                val,
            ),
    {
        self.write_slot_u32(idx, S_HEADERS_LEN, val);
    }

    /// The length of the headers of the request.
    pub fn headers_data_len(&self, idx: u32) -> (r: u32)
        requires
            self.wf(),
            idx < self.slot_count,
        ensures
            self.mem.exclusive() ==> r == memory::u32_at(
                self.mem.image(),
                slot_off(idx as int) + S_HEADERS_LEN,
            ),
    {
        self.read_slot_u32(idx, S_HEADERS_LEN)
    }

    /// Sets the block of the request.
    pub fn set_request_block_idx(&mut self, idx: u32, val: u32)
        requires
            old(self).wf(),
            idx < old(self).slot_count,
        ensures
            final(self).wf(),
            old(self).same_segment(final(self)),
            final(self).mem.accesses() == old(self).mem.accesses().push(
                (Access::Word32 { off: slot_off(idx as int) + S_REQUEST_BLOCK, v: val }),
            ),
            old(self).mem.exclusive() ==> final(self).mem.image() == memory::put32(
                old(self).mem.image(),
                slot_off(idx as int) + S_REQUEST_BLOCK,
                val,
            ),
    {
        self.write_slot_u32(idx, S_REQUEST_BLOCK, val);
    }

    /// The block of the request.
    pub fn request_block_idx(&self, idx: u32) -> (r: u32)
        requires
            self.wf(),
            idx < self.slot_count,
        ensures
            self.mem.exclusive() ==> r == memory::u32_at(
                self.mem.image(),
                slot_off(idx as int) + S_REQUEST_BLOCK,
            ),
    {
        self.read_slot_u32(idx, S_REQUEST_BLOCK)
    }

    /// Sets the block of the response.
    pub fn set_response_block_idx(&mut self, idx: u32, val: u32)
        requires
            old(self).wf(),
            idx < old(self).slot_count,
        ensures
            final(self).wf(),
            old(self).same_segment(final(self)),
            final(self).mem.accesses() == old(self).mem.accesses().push(
                (Access::Word32 { off: slot_off(idx as int) + S_RESPONSE_BLOCK, v: val }),
            ),
            old(self).mem.exclusive() ==> final(self).mem.image() == memory::put32(
                old(self).mem.image(),
                slot_off(idx as int) + S_RESPONSE_BLOCK,
                val,
            ),
    {
        self.write_slot_u32(idx, S_RESPONSE_BLOCK, val);
    }

    /// The block of the response.
    pub fn response_block_idx(&self, idx: u32) -> (r: u32)
        requires
            self.wf(),
            idx < self.slot_count,
        ensures
            self.mem.exclusive() ==> r == memory::u32_at(
                self.mem.image(),
                slot_off(idx as int) + S_RESPONSE_BLOCK,
            ),
    {
        self.read_slot_u32(idx, S_RESPONSE_BLOCK)
    }

    /// Sets the status of the response.
    pub fn set_response_status(&mut self, idx: u32, val: u16)
        requires
            old(self).wf(),
            idx < old(self).slot_count,
        ensures
            final(self).wf(),
            old(self).same_segment(final(self)),
            final(self).mem.accesses() == old(self).mem.accesses().push(
                (Access::Bytes { off: slot_off(idx as int) + S_STATUS, data: memory::le16(val) }),
            ),
            old(self).mem.exclusive() ==> final(self).mem.image() == memory::put(
                old(self).mem.image(),
                slot_off(idx as int) + S_STATUS,
                memory::le16(val),
            ),
    {
        let base: usize = self.slot_base(idx);
        let mut b: Vec<u8> = Vec::new();
        memory::push_u16(&mut b, val);
        assert(b@ =~= memory::le16(val));
        self.mem.write(base + S_STATUS, b.as_slice());
    }

    /// The status of the response.
    pub fn response_status(&self, idx: u32) -> (r: u16)
        requires
            self.wf(),
            idx < self.slot_count,
        ensures
            self.mem.exclusive() ==> r == memory::u16_at(
                self.mem.image(),
                slot_off(idx as int) + S_STATUS,
            ),
    {
        let base: usize = self.slot_base(idx);
        let b: Vec<u8> = self.mem.read(base + S_STATUS, 2);
        memory::get_u16(b.as_slice(), 0)
    }

    /// Sets the length of the body of the response.
    pub fn set_response_body_len(&mut self, idx: u32, val: u32)
        requires
            old(self).wf(),
            idx < old(self).slot_count,
        ensures
            final(self).wf(),
            old(self).same_segment(final(self)),
            final(self).mem.accesses() == old(self).mem.accesses().push(
                (Access::Word32 { off: slot_off(idx as int) + S_RESPONSE_BODY_LEN, v: val }),
            ),
            old(self).mem.exclusive() ==> final(self).mem.image() == memory::put32(
                old(self).mem.image(),
                slot_off(idx as int) + S_RESPONSE_BODY_LEN,
                val,
            ),
    {
        self.write_slot_u32(idx, S_RESPONSE_BODY_LEN, val);
    }

    /// The length of the body of the response.
    pub fn response_body_len(&self, idx: u32) -> (r: u32)
        requires
            self.wf(),
            idx < self.slot_count,
        ensures
            self.mem.exclusive() ==> r == memory::u32_at(
                self.mem.image(),
                slot_off(idx as int) + S_RESPONSE_BODY_LEN,
            ),
    {
        self.read_slot_u32(idx, S_RESPONSE_BODY_LEN)
    }

    /// Sets the length of the headers of the response.
    pub fn set_response_headers_data_len(&mut self, idx: u32, val: u32)
        requires
            old(self).wf(),
            idx < old(self).slot_count,
        ensures
            final(self).wf(),
            old(self).same_segment(final(self)),
            final(self).mem.accesses() == old(self).mem.accesses().push(
                (Access::Word32 { off: slot_off(idx as int) + S_RESPONSE_HEADERS_LEN, v: val }),
            ),
            old(self).mem.exclusive() ==> final(self).mem.image() == memory::put32(
                old(self).mem.image(),
                slot_off(idx as int) + S_RESPONSE_HEADERS_LEN,
                val,
            ),
    {
        self.write_slot_u32(idx, S_RESPONSE_HEADERS_LEN, val);
    }

    /// The length of the headers of the response.
    pub fn response_headers_data_len(&self, idx: u32) -> (r: u32)
        requires
            self.wf(),
            idx < self.slot_count,
        ensures
            self.mem.exclusive() ==> r == memory::u32_at(
                self.mem.image(),
                slot_off(idx as int) + S_RESPONSE_HEADERS_LEN,
            ),
    {
        self.read_slot_u32(idx, S_RESPONSE_HEADERS_LEN)
    }

    /// Tells the server that there is work. Says whether a server thread
    /// sleeps and is to be woken.
    pub fn notify_server(&mut self) -> (r: bool)
        requires
            old(self).wf(),
        ensures
            final(self).wf(),
            old(self).same_segment(final(self)),
            final(self).mem.accesses() == old(self).mem.accesses().push(server_told()),
            old(self).mem.exclusive() ==> {
                &&& r == (memory::u32_at(old(self).mem.image(), H_WAITERS as int) > 0)
                &&& final(self).mem.image() == memory::put32(
                    old(self).mem.image(),
                    H_NOTIFY as int,
                    1,
                )
            },
    {
        proof {
            lemma_header_room(self.config);
        }
        self.mem.store_u32(H_NOTIFY, 1);
        self.mem.load_u32(H_WAITERS) > 0
    }

    /// Begins to wait for work. If there is some already, takes note of it;
    /// otherwise counts as sleeping, and says that the thread is to sleep
    /// until told of work, and then to call `work_wait_done`.
    pub fn wait_for_work(&mut self) -> (r: bool)
        requires
            old(self).wf(),
        ensures
            final(self).wf(),
            old(self).same_segment(final(self)),
            exists|found: u32, was: u32|
                {
                    &&& final(self).mem.accesses() == old(self).mem.accesses()
                        + #[trigger] work_looks(found, was)
                    &&& r == (found == 0)
                },
            old(self).mem.exclusive() ==> {
                let m = old(self).mem.image();
                &&& r == (memory::u32_at(m, H_NOTIFY as int) == 0)
                &&& final(self).mem.image() == if r {
                    memory::put32(
                        m,
                        H_WAITERS as int,
                        memory::wrapping_sum_u32(memory::u32_at(m, H_WAITERS as int), 1),
                    )
                } else {
                    memory::put32(m, H_NOTIFY as int, 0)
                }
            },
    {
        proof {
            lemma_header_room(self.config);
        }
        let found: u32 = self.mem.look_u32(H_NOTIFY);
        if found != 0 {
            self.mem.store_u32(H_NOTIFY, 0);
            assert(self.mem.accesses() =~= old(self).mem.accesses() + work_looks(found, 0));
            return false;
        }
        let before: u32 = self.mem.fetch_add_u32(H_WAITERS, 1);
        assert(self.mem.accesses() =~= old(self).mem.accesses() + work_looks(found, before));
        true
    }

    /// Ends a wait for work in which the thread slept.
    pub fn work_wait_done(&mut self)
        requires
            old(self).wf(),
        ensures
            final(self).wf(),
            old(self).same_segment(final(self)),
            exists|was: u32|
                final(self).mem.accesses() == old(self).mem.accesses().push(
                    #[trigger] memory::one_less(H_WAITERS as int, was),
                ).push(Access::Word32 { off: H_NOTIFY as int, v: 0 }),
            old(self).mem.exclusive() ==> {
                let m = old(self).mem.image();
                final(self).mem.image() == memory::put32(
                    memory::put32(
                        m,
                        H_WAITERS as int,
                        memory::wrapping_difference_u32(memory::u32_at(m, H_WAITERS as int), 1),
                    ),
                    H_NOTIFY as int,
                    0,
                )
            },
    {
        proof {
            lemma_header_room(self.config);
        }
        let before: u32 = self.mem.fetch_sub_u32(H_WAITERS, 1);
        self.mem.store_u32(H_NOTIFY, 0);
        assert(self.mem.accesses() == old(self).mem.accesses().push(
            memory::one_less(H_WAITERS as int, before),
        ).push(Access::Word32 { off: H_NOTIFY as int, v: 0 }));
    }

    /// Sets the heartbeat of the server.
    pub fn update_heartbeat(&mut self, now: u64)
        requires
            old(self).wf(),
        ensures
            final(self).wf(),
            old(self).same_segment(final(self)),
            final(self).mem.accesses() == old(self).mem.accesses().push(
                (Access::Word64 { off: H_HEARTBEAT as int, v: now }),
            ),
            old(self).mem.exclusive() ==> final(self).mem.image() == memory::put64(
                old(self).mem.image(),
                H_HEARTBEAT as int,
                now,
            ),
    {
        proof {
            lemma_header_room(self.config);
        }
        self.mem.store_u64(H_HEARTBEAT, now);
    }

    /// Checks that the heartbeat of the server is at most `timeout` old.
    pub fn check_heartbeat(&self, timeout: u64, now: u64) -> (r: Result<(), CrossbarError>)
        requires
            self.wf(),
        ensures
            r matches Err(e) ==> e is ShmServerDead,
            self.mem.exclusive() ==> (r is Err <==> now - memory::u64_at(
                self.mem.image(),
                H_HEARTBEAT as int,
            ) > timeout),
    {
        proof {
            lemma_header_room(self.config);
        }
        let last: u64 = self.mem.load_u64(H_HEARTBEAT);
        if is_older(now, last, timeout) {
            return Err(CrossbarError::ShmServerDead);
        }
        Ok(())
    }

    /// The slot at which the server starts to look for work.
    pub fn server_slot_hint(&self) -> (r: u32)
        requires
            self.wf(),
        ensures
            self.mem.exclusive() ==> r == memory::u32_at(
                self.mem.image(),
                H_SERVER_SLOT_HINT as int,
            ),
    {
        proof {
            lemma_header_room(self.config);
        }
        self.mem.load_u32(H_SERVER_SLOT_HINT)
    }

    /// Acquires a free slot for a client: the first one from the hint on,
    /// going around once. `None` if no slot is free.
    pub fn try_acquire_slot(&mut self, client_id: u64, now: u64) -> (r: Option<u32>)
        requires
            old(self).wf(),
        ensures
            final(self).wf(),
            old(self).same_segment(final(self)),
            r matches Some(i) ==> i < old(self).slot_count,
            r matches Some(i) ==> acquired_last(final(self).mem.accesses(), i, client_id, now),
            old(self).mem.exclusive() ==> {
                let m = old(self).mem.image();
                let n = old(self).slot_count;
                &&& r == acquired(m, n)
                &&& final(self).mem.image() == match r {
                    Some(i) => after_acquire(m, i, client_id, now),
                    None => m,
                }
            },
    {
        proof {
            lemma_header_room(self.config);
        }
        let n: u32 = self.slot_count;
        if n == 0 {
            return None;
        }
        let start: u32 = self.mem.load_u32(H_SLOT_HINT) % n;
        let mut offset: u32 = 0;
        while offset < n
            invariant
                offset <= n,
                0 < n,
                start < n,
                self.wf(),
                n == self.slot_count,
                old(self).same_segment(self),
                self.mem.exclusive() ==> {
                    &&& self.mem.image() == old(self).mem.image()
                    &&& start == memory::u32_at(self.mem.image(), H_SLOT_HINT as int) % n
                    &&& acquired(old(self).mem.image(), n) == free_from(
                        old(self).mem.image(),
                        n,
                        start,
                        offset as nat,
                    )
                },
            decreases n - offset,
        {
            let i: u32 = ((start as u64 + offset as u64) % n as u64) as u32;
            assert(i == cyclic(n, start, offset as nat));
            let ghost first = self.mem.accesses();
            let moved: bool = self.advance_slot(i, FREE, WRITING);
            let ghost a = choose|a: Access|
                self.mem.accesses() == first.push(a) && #[trigger] moves_slot(
                    a,
                    i as int,
                    FREE,
                    WRITING,
                    moved,
                );
            if moved {
                self.set_slot_client_id(i, client_id);
                let base: usize = self.slot_base(i);
                let before: u32 = self.mem.fetch_add_u32(base + S_SEQUENCE, 1);
                self.touch_slot(i, now);
                proof {
                    lemma_header_room(self.config);
                    lemma_slot(self.config, i as int);
                }
                self.mem.store_u32(H_SLOT_HINT, i.wrapping_add(1));
                proof {
                    let ops = acquires(a, i, client_id, before, now);
                    assert(self.mem.accesses() =~= first + ops);
                    reading::lemma_ends_with(first, ops);
                }
                return Some(i);
            }
            offset = offset + 1;
        }
        None
    }

    /// Frees the slots that have been waiting for longer than `timeout`, and
    /// the blocks that they name.
    pub fn recover_stale_slots(&mut self, timeout: u64, now: u64)
        requires
            old(self).wf(),
        ensures
            final(self).wf(),
            old(self).same_segment(final(self)),
            recovered_slots(
                old(self).config,
                old(self).mem.accesses(),
                final(self).mem.accesses(),
                old(self).slot_count as nat,
                timeout,
                now,
            ),
            old(self).mem.exclusive() ==> final(self).mem.image() == recovered(
                old(self).config,
                old(self).mem.image(),
                timeout,
                now,
                old(self).slot_count as nat,
            ),
    {
        let mut i: u32 = 0;
        let ghost mut parts: Seq<Accesses> = Seq::empty();
        let ghost c = self.config;
        let ghost first = self.mem.accesses();
        assert(first + reading::joined(parts) =~= first);
        while i < self.slot_count
            invariant
                i <= self.slot_count,
                self.wf(),
                old(self).same_segment(self),
                c == self.config,
                parts.len() == i,
                self.mem.accesses() == first + reading::joined(parts),
                recovers_each(c, parts, timeout, now),
                self.mem.exclusive() ==> self.mem.image() == recovered(
                    self.config,
                    old(self).mem.image(),
                    timeout,
                    now,
                    i as nat,
                ),
            decreases self.slot_count - i,
        {
            let ghost mid = self.mem.accesses();
            self.recover_slot(i, timeout, now);
            proof {
                let ops = choose|ops: Accesses|
                    self.mem.accesses() == mid + ops && #[trigger] recovers(
                        c,
                        ops,
                        i as int,
                        timeout,
                        now,
                    );
                let longer = parts.push(ops);
                assert forall|k: int| 0 <= k < longer.len() implies #[trigger] recovers(
                    c,
                    longer[k],
                    k,
                    timeout,
                    now,
                ) by {
                    if k < parts.len() {
                        assert(recovers(c, parts[k], k, timeout, now));
                    }
                }
                reading::lemma_joined_push(parts, ops);
                assert(self.mem.accesses() =~= first + reading::joined(longer));
                parts = longer;
            }
            i = i + 1;
        }
        assert(recovers_each(c, parts, timeout, now));
    }

    /// Gives the block back that a word of a slot names, and lets the word name none.
    fn let_go(&mut self, i: u32, field: usize)
        requires
            old(self).wf(),
            i < old(self).slot_count,
            field == S_REQUEST_BLOCK || field == S_RESPONSE_BLOCK,
        ensures
            final(self).wf(),
            old(self).same_segment(final(self)),
            exists|ops: Accesses|
                {
                    &&& final(self).mem.accesses() == old(self).mem.accesses() + ops
                    &&& #[trigger] gives_and_names_none(
                        old(self).config,
                        ops,
                        slot_off(i as int) + field,
                    )
                },
            old(self).mem.exclusive() ==> final(self).mem.image() == after_drop(
                old(self).config,
                old(self).mem.image(),
                i as int,
                field as int,
            ),
    {
        let ghost first = self.mem.accesses();
        let ghost c = self.config;
        let ghost off = slot_off(i as int) + field;
        let base: usize = self.slot_base(i);
        proof {
            lemma_slot(self.config, i as int);
        }
        let block: u32 = self.mem.look_u32(base + field);
        let ghost look = seq![Access::Look32 { off, found: block }];
        let ghost mut rest: Accesses = Seq::empty();
        if block != NO_BLOCK {
            let ghost mid = self.mem.accesses();
            self.free_block(block);
            let ghost given = choose|ops: Accesses|
                self.mem.accesses() == mid + ops && #[trigger] pool_of(c).gives(ops, block);
            self.mem.store_u32(base + field, NO_BLOCK);
            proof {
                rest = given.push(Access::Word32 { off, v: NO_BLOCK });
                assert(pool_of(c).gives(given, block));
            }
        }
        assert(gives_named(c, rest, off, block));
        assert(self.mem.accesses() =~= first + (look + rest));
        assert(gives_and_names_none(c, look + rest, off));
    }

    fn recover_slot(&mut self, i: u32, timeout: u64, now: u64)
        requires
            old(self).wf(),
            i < old(self).slot_count,
        ensures
            final(self).wf(),
            old(self).same_segment(final(self)),
            exists|ops: Accesses|
                {
                    &&& final(self).mem.accesses() == old(self).mem.accesses() + ops
                    &&& #[trigger] recovers(old(self).config, ops, i as int, timeout, now)
                },
            old(self).mem.exclusive() ==> final(self).mem.image() == after_recover(
                old(self).config,
                old(self).mem.image(),
                i as int,
                timeout,
                now,
            ),
    {
        let ghost m = self.mem.image();
        let ghost c = self.config;
        proof {
            lemma_slot(self.config, i as int);
        }
        let ghost first = self.mem.accesses();
        let ghost none = Seq::<Access>::empty();
        let base: usize = self.slot_base(i);
        let current: u32 = self.mem.look_u32(base + S_STATE);
        let ghost seen = Access::Look32 { off: slot_off(i as int) + S_STATE, found: current };
        if current == FREE || current == PROCESSING {
            proof {
                assert(recovers_from(c, none, i as int, current, timeout, now));
                assert(self.mem.accesses() =~= first + (seq![seen] + none));
                assert(recovers(c, seq![seen] + none, i as int, timeout, now));
            }
            return ;
        }
        let ts: u64 = self.mem.look_u64(base + S_TIMESTAMP);
        let ghost seen_at = reading::look(slot_off(i as int) + S_TIMESTAMP, ts);
        let ghost looks = seq![seen] + seq![seen_at];
        assert(self.mem.accesses() =~= first + looks);
        if !is_older(now, ts, timeout) {
            proof {
                assert(recovers_since(c, none, i as int, current, ts, timeout, now));
                lemma_recovers(c, none, i as int, current, ts, timeout, now);
                assert(self.mem.accesses() =~= first + (looks + none));
            }
            return ;
        }
        let moved: bool = self.advance_slot(i, current, PROCESSING);
        let ghost a = choose|a: Access|
            self.mem.accesses() == (first + looks).push(a) && #[trigger] moves_slot(
                a,
                i as int,
                current,
                PROCESSING,
                moved,
            );
        if !moved {
            proof {
                assert(recovers_since(c, seq![a], i as int, current, ts, timeout, now));
                lemma_recovers(c, seq![a], i as int, current, ts, timeout, now);
                assert(self.mem.accesses() =~= first + (looks + seq![a]));
            }
            return ;
        }
        assert(claims_stale(a, i as int, current));
        let ghost claimed = self.mem.accesses();
        self.let_go(i, S_REQUEST_BLOCK);
        let ghost freed = choose|ops: Accesses|
            self.mem.accesses() == claimed + ops && #[trigger] gives_and_names_none(
                c,
                ops,
                slot_off(i as int) + S_REQUEST_BLOCK,
            );
        let ghost dropped = self.mem.accesses();
        self.let_go(i, S_RESPONSE_BLOCK);
        let ghost freed_too = choose|ops: Accesses|
            self.mem.accesses() == dropped + ops && #[trigger] gives_and_names_none(
                c,
                ops,
                slot_off(i as int) + S_RESPONSE_BLOCK,
            );
        self.set_slot_state(i, FREE);
        proof {
            let ops = seq![a] + freed + freed_too + seq![state_store(i as int, FREE)];
            assert(self.mem.accesses() =~= first + (looks + ops));
            assert(recovers_since(c, ops, i as int, current, ts, timeout, now));
            lemma_recovers(c, ops, i as int, current, ts, timeout, now);
        }
    }
}

/// The header is in the segment.
pub proof fn lemma_header_room(c: ShmConfig)
    ensures
        GLOBAL_HEADER_SIZE <= segment_size(
            c.slot_count as int,
            c.block_count as int,
            c.block_size as int,
        ),
{
    let a = c.block_count as int;
    let b = c.block_size as int;
    assert(0 <= a * b) by (nonlinear_arith)
        requires
            0 <= a,
            0 <= b,
    ;
}

/// The two looks at a waiting slot, and what is done after them, are a recovery.
proof fn lemma_recovers(
    c: ShmConfig,
    ops: Accesses,
    slot: int,
    state: u32,
    at: u64,
    timeout: u64,
    now: u64,
)
    requires
        state != FREE,
        state != PROCESSING,
        recovers_since(c, ops, slot, state, at, timeout, now),
    ensures
        recovers(
            c,
            seq![Access::Look32 { off: slot_off(slot) + S_STATE, found: state }] + seq![
                reading::look(slot_off(slot) + S_TIMESTAMP, at),
            ] + ops,
            slot,
            timeout,
            now,
        ),
{
    let seen = seq![Access::Look32 { off: slot_off(slot) + S_STATE, found: state }];
    let rest = seq![reading::look(slot_off(slot) + S_TIMESTAMP, at)] + ops;
    assert(recovers_from(c, rest, slot, state, timeout, now));
    assert(seen + seq![reading::look(slot_off(slot) + S_TIMESTAMP, at)] + ops =~= seen + rest);
}

/// Whether a moment lies longer ago than a timeout. One in the future does not.
fn is_older(now: u64, then_at: u64, timeout: u64) -> (r: bool)
    ensures
        r == (now - then_at > timeout),
{
    now > then_at && now - then_at > timeout
}

/// The slot `offset` places behind `start`, going around.
pub open spec fn cyclic(n: u32, start: u32, offset: nat) -> int {
    (start + offset) % (n as int)
}

/// The first free slot from `offset` places behind `start` on.
pub open spec fn free_from(m: Seq<u8>, n: u32, start: u32, offset: nat) -> Option<u32>
    decreases n - offset,
{
    if offset >= n {
        None
    } else if state_of(m, cyclic(n, start, offset)) == FREE {
        Some(cyclic(n, start, offset) as u32)
    } else {
        free_from(m, n, start, offset + 1)
    }
}

/// The slot that the next client acquires.
pub open spec fn acquired(m: Seq<u8>, n: u32) -> Option<u32> {
    if n == 0 {
        None
    } else {
        free_from(m, n, memory::u32_at(m, H_SLOT_HINT as int) % n, 0)
    }
}

/// The segment after a client acquired a slot.
pub open spec fn after_acquire(m: Seq<u8>, slot: u32, client_id: u64, now: u64) -> Seq<u8> {
    let s = slot_off(slot as int);
    let m = memory::put32(m, s + S_STATE, WRITING);
    let m = memory::put64(m, s + S_CLIENT, client_id);
    let m = memory::put32(
        m,
        s + S_SEQUENCE,
        memory::wrapping_sum_u32(memory::u32_at(m, s + S_SEQUENCE), 1),
    );
    let m = memory::put64(m, s + S_TIMESTAMP, now);
    memory::put32(m, H_SLOT_HINT as int, memory::wrapping_sum_u32(slot, 1))
}

/// The segment after the block that a slot names at `off` went back to the
/// pool.
pub open spec fn after_drop(c: ShmConfig, m: Seq<u8>, slot: int, off: int) -> Seq<u8> {
    let block = memory::u32_at(m, slot_off(slot) + off);
    if block == NO_BLOCK {
        m
    } else {
        memory::put32(pool_of(c).after_free(m, block), slot_off(slot) + off, NO_BLOCK)
    }
}

/// The segment after one slot was freed, if it had been waiting too long.
pub open spec fn after_recover(c: ShmConfig, m: Seq<u8>, slot: int, timeout: u64, now: u64) -> Seq<
    u8,
> {
    let s = state_of(m, slot);
    if s == FREE || s == PROCESSING || now - memory::u64_at(m, slot_off(slot) + S_TIMESTAMP)
        <= timeout {
        m
    } else {
        let m = memory::put32(m, slot_off(slot) + S_STATE, PROCESSING);
        let m = after_drop(c, m, slot, S_REQUEST_BLOCK as int);
        let m = after_drop(c, m, slot, S_RESPONSE_BLOCK as int);
        memory::put32(m, slot_off(slot) + S_STATE, FREE)
    }
}

/// The segment after the first `n` slots were looked at in turn.
pub open spec fn recovered(c: ShmConfig, m: Seq<u8>, timeout: u64, now: u64, n: nat) -> Seq<u8>
    decreases n,
{
    if n == 0 {
        m
    } else {
        after_recover(c, recovered(c, m, timeout, now, (n - 1) as nat), n - 1, timeout, now)
    }
}

} // verus!
