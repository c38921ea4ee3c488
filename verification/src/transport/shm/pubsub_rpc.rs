//! Requests and responses over a pair of rings for each client.
//!
//! A request is a message in a block, whose index the client puts in its
//! request ring. The server writes the response in the same block, and puts the
//! index in the response ring of the client, who gives the block back.

use crate::error::{self, CrossbarError};
use crate::handler::Handler;
use crate::memory::{self, Access, Accesses, SharedMemory};
use crate::protocol::pool::{self, PoolLayout, NO_BLOCK};
use crate::protocol::reading::{self, EntryLook};
use crate::router::Router;
use crate::text::{self, add_number, add_text};
use crate::transport::client;
use crate::transport::shm::cells::{self, cell_off, table_end};
use crate::transport::shm::exchange;
use crate::transport::shm::rings::{
    self, clear_entries, write_entry, RE_BLOCK_IDX, RE_DATA_LEN, RE_SEQ, RING_ENTRY_SIZE,
};
use crate::transport::shm::rpc_message::{
    self, decode_request, decode_response, encode_request, encode_response, Refusal,
};
use crate::types::{self, Request, Response};
use vstd::prelude::*;

verus! {

broadcast use crate::memory::group_memory;

/// The version of the layout.
pub const VERSION: u32 = 1;

/// Size of the header.
pub const HEADER_SIZE: usize = 128;

/// Size of a client entry.
pub const CLIENT_ENTRY_SIZE: usize = 64;

/// Offset of the data in a block.
pub const BLOCK_DATA_OFFSET: usize = 8;

/// Offset of the version.
pub const GH_VERSION: usize = 0x08;

/// Offset of the number of clients.
pub const GH_MAX_CLIENTS: usize = 0x0C;

/// Offset of the number of blocks.
pub const GH_BLOCK_COUNT: usize = 0x10;

/// Offset of the size of a block.
pub const GH_BLOCK_SIZE: usize = 0x14;

/// Offset of the ring depth.
pub const GH_RING_DEPTH: usize = 0x18;

/// Offset of the head of the free list.
pub const GH_POOL_HEAD: usize = 0x20;

/// Offset of the heartbeat of the server.
pub const GH_HEARTBEAT: usize = 0x28;

/// Offset of the process id of the server.
pub const GH_PID: usize = 0x30;

/// Offset of the word that changes when a sleeping server is told of work.
pub const GH_SERVER_NOTIFY: usize = 0x38;

/// Offset of the number of sleeping server threads.
pub const GH_SERVER_WAITERS: usize = 0x3C;

/// Offset of the stale timeout, in microseconds.
pub const GH_STALE_TIMEOUT_US: usize = 0x40;

/// Offset of the mark of a connected client.
pub const CE_ACTIVE: usize = 0x00;

/// Offset of the process id of a client.
pub const CE_CLIENT_PID: usize = 0x04;

/// Offset of the id of a client.
pub const CE_CLIENT_ID: usize = 0x08;

/// Offset of the sequence number of the newest request.
pub const CE_REQ_WRITE_SEQ: usize = 0x10;

/// Offset of the sequence number of the newest response.
pub const CE_RESP_WRITE_SEQ: usize = 0x18;

/// Offset of the word that changes when a response is there.
pub const CE_RESP_NOTIFY: usize = 0x20;

/// Offset of the number of sleeping threads of a client.
pub const CE_RESP_WAITERS: usize = 0x24;

/// How long a client waits for a response where nothing else was asked for, in
/// microseconds.
pub const DEFAULT_STALE_TIMEOUT_US: u64 = 5000000;

/// How often a client looks for a response while it spins.
pub const SPIN_ITERS: u32 = 2048;

/// How often it looks for a response while it lets other threads run.
pub const YIELD_ITERS: u32 = 16;

/// How often a server looks for requests before it sleeps.
pub const SERVER_SPIN_ITERS: u32 = 2048;

/// The bytes at the start of a segment: `XBAR_RC` and a zero.
pub open spec fn magic() -> Seq<u8> {
    seq![88u8, 66, 65, 82, 95, 82, 67, 0]
}

fn magic_bytes() -> (r: Vec<u8>)
    ensures
        r@ == magic(),
{
    let r: Vec<u8> = vec![88u8, 66, 65, 82, 95, 82, 67, 0];
    assert(r@ =~= magic());
    r
}

/// The parameters of a segment.
#[derive(Debug, Clone, Copy, PartialEq, Eq, Structural)]
pub struct PubSubRpcConfig {
    /// Most clients.
    pub max_clients: u32,
    /// Number of blocks.
    pub block_count: u32,
    /// Size of a block in bytes.
    pub block_size: u32,
    /// Entries in a ring.
    pub ring_depth: u32,
    /// Microseconds between two heartbeats of the server.
    pub heartbeat_interval_us: u64,
    /// Microseconds after which a server without heartbeat counts as dead.
    pub stale_timeout_us: u64,
}

/// The parameters that are used where none are given.
pub open spec fn default_config() -> PubSubRpcConfig {
    PubSubRpcConfig {
        max_clients: 16,
        block_count: 256,
        block_size: 65536,
        ring_depth: 8,
        heartbeat_interval_us: 100000,
        stale_timeout_us: 5000000,
    }
}

impl Default for PubSubRpcConfig {
    fn default() -> (r: PubSubRpcConfig)
        ensures
            r == default_config(),
    {
        PubSubRpcConfig {
            max_clients: 16,
            block_count: 256,
            block_size: 65536,
            ring_depth: 8,
            heartbeat_interval_us: 100000,
            stale_timeout_us: 5000000,
        }
    }
}

/// The path of the file of a segment.
pub fn shm_path(name: &str, linux: bool) -> (r: String)
    ensures
        r@ == (if linux {
            "/dev/shm/crossbar-rpc-"@ + name@
        } else {
            "/tmp/crossbar-rpc-shm-"@ + name@
        }),
{
    if linux {
        add_text(text::text("/dev/shm/crossbar-rpc-"), name)
    } else {
        add_text(text::text("/tmp/crossbar-rpc-shm-"), name)
    }
}

/// Offset of a client entry.
pub open spec fn client_off(client: int) -> int {
    HEADER_SIZE + client * CLIENT_ENTRY_SIZE
}

/// Offset of the request rings.
pub open spec fn req_base(c: PubSubRpcConfig) -> int {
    HEADER_SIZE + c.max_clients * CLIENT_ENTRY_SIZE
}

/// Size of all rings of one kind.
pub open spec fn rings_size(c: PubSubRpcConfig) -> int {
    cells::table_size(c.max_clients as int, c.ring_depth as int, RING_ENTRY_SIZE as int)
}

/// Offset of the response rings.
pub open spec fn resp_base(c: PubSubRpcConfig) -> int {
    req_base(c) + rings_size(c)
}

/// Offset of the pool.
pub open spec fn pool_off(c: PubSubRpcConfig) -> int {
    resp_base(c) + rings_size(c)
}

/// Size of a segment.
pub open spec fn region_size(c: PubSubRpcConfig) -> int {
    pool_off(c) + cells::table_size(c.block_count as int, 1, c.block_size as int)
}

/// The slot of a sequence number.
pub open spec fn slot_of(c: PubSubRpcConfig, seq: u64) -> int {
    (seq % (c.ring_depth as u64)) as int
}

/// Offset of a request ring entry.
pub open spec fn req_off(c: PubSubRpcConfig, client: int, seq: u64) -> int {
    req_base(c) + cells::cell(
        c.ring_depth as int,
        RING_ENTRY_SIZE as int,
        client,
        slot_of(c, seq),
    )
}

/// Offset of a response ring entry.
pub open spec fn resp_off(c: PubSubRpcConfig, client: int, seq: u64) -> int {
    resp_base(c) + cells::cell(
        c.ring_depth as int,
        RING_ENTRY_SIZE as int,
        client,
        slot_of(c, seq),
    )
}

/// The pool of a segment.
pub open spec fn pool_of(c: PubSubRpcConfig) -> PoolLayout {
    PoolLayout {
        head: GH_POOL_HEAD,
        base: pool_off(c) as usize,
        block_size: c.block_size,
        block_count: c.block_count,
        checks_links: false,
    }
}

/// Blocks have room for their links, there are ring entries, and the segment
/// fits in the address space.
pub open spec fn sound(c: PubSubRpcConfig) -> bool {
    &&& c.block_size >= BLOCK_DATA_OFFSET
    &&& c.ring_depth > 0
    &&& region_size(c) <= usize::MAX
}

/// Bytes of data that a block can hold.
pub open spec fn capacity_of(c: PubSubRpcConfig) -> int {
    c.block_size - BLOCK_DATA_OFFSET
}

/// Offset of the data of a block.
pub open spec fn data_off(c: PubSubRpcConfig, block: int) -> int {
    pool_of(c).block(block) + BLOCK_DATA_OFFSET
}

/// The parts of a segment follow each other.
pub proof fn lemma_parts(c: PubSubRpcConfig)
    ensures
        HEADER_SIZE <= req_base(c) <= resp_base(c) <= pool_off(c) <= region_size(c),
        region_size(c) == pool_off(c) + c.block_count * c.block_size,
{
    cells::lemma_table(c.max_clients as int, c.ring_depth as int, RING_ENTRY_SIZE as int);
    cells::lemma_table(c.block_count as int, 1, c.block_size as int);
    assert(c.block_count as int * 1 == c.block_count);
}

/// The pool lies in the segment.
pub proof fn lemma_pool(c: PubSubRpcConfig, len: nat)
    requires
        sound(c),
        region_size(c) <= len <= usize::MAX,
    ensures
        pool_of(c).fits(len),
        pool_of(c).base == pool_off(c),
{
    lemma_parts(c);
}

/// A client entry lies between the header and the rings.
pub proof fn lemma_client(c: PubSubRpcConfig, client: int)
    requires
        0 <= client < c.max_clients,
    ensures
        HEADER_SIZE <= client_off(client),
        client_off(client) + CLIENT_ENTRY_SIZE <= req_base(c) <= region_size(c),
{
    lemma_parts(c);
}

/// Ring entries lie between the client entries and the pool, request rings
/// before response rings.
pub proof fn lemma_rings(c: PubSubRpcConfig, client: int, seq: u64)
    requires
        0 <= client < c.max_clients,
        c.ring_depth > 0,
    ensures
        req_base(c) <= req_off(c, client, seq),
        req_off(c, client, seq) + RING_ENTRY_SIZE <= resp_base(c),
        resp_base(c) <= resp_off(c, client, seq),
        resp_off(c, client, seq) + RING_ENTRY_SIZE <= pool_off(c) <= region_size(c),
{
    lemma_parts(c);
    cells::lemma_cell(
        c.max_clients as int,
        c.ring_depth as int,
        RING_ENTRY_SIZE as int,
        client,
        slot_of(c, seq),
    );
}

/// The parts of a block lie in the segment.
pub proof fn lemma_block(c: PubSubRpcConfig, block: int)
    requires
        sound(c),
        0 <= block < c.block_count,
    ensures
        pool_off(c) <= pool_of(c).block(block),
        data_off(c, block) + capacity_of(c) == pool_of(c).block(block) + c.block_size,
        data_off(c, block) + capacity_of(c) <= region_size(c),
{
    lemma_pool(c, region_size(c) as nat);
    lemma_parts(c);
    pool::lemma_block(pool_of(c), block, region_size(c) as nat);
}

/// Size of the segment that the parameters ask for, or `None` if no segment can
/// be made with them.
pub fn checked_region_size(config: &PubSubRpcConfig) -> (r: Option<usize>)
    ensures
        r is Some <==> sound(*config) && config.block_count > 0,
        r matches Some(n) ==> n == region_size(*config),
{
    if config.block_size < BLOCK_DATA_OFFSET as u32 || config.block_count == 0
        || config.ring_depth == 0 {
        return None;
    }
    size_of_parts(config)
}

fn size_of_parts(config: &PubSubRpcConfig) -> (r: Option<usize>)
    ensures
        match r {
            Some(n) => n == region_size(*config),
            None => region_size(*config) > usize::MAX,
        },
{
    proof {
        lemma_parts(*config);
        cells::lemma_table(config.max_clients as int, config.ring_depth as int, 16);
        cells::lemma_many_cells(
            config.max_clients as int,
            config.ring_depth as int,
            RING_ENTRY_SIZE as int,
        );
    }
    let table: usize = match (config.max_clients as usize).checked_mul(CLIENT_ENTRY_SIZE) {
        Some(n) => n,
        None => {
            return None;
        },
    };
    let base: usize = match table.checked_add(HEADER_SIZE) {
        Some(n) => n,
        None => {
            return None;
        },
    };
    let resp: usize = match table_end(
        base,
        config.max_clients,
        config.ring_depth,
        RING_ENTRY_SIZE,
    ) {
        Some(n) => n,
        None => {
            return None;
        },
    };
    match table_end(resp, config.max_clients, config.ring_depth, RING_ENTRY_SIZE) {
        Some(n) => table_end(n, config.block_count, 1, config.block_size as usize),
        None => None,
    }
}

/// The segment with its header written.
pub open spec fn with_header(c: PubSubRpcConfig, m: Seq<u8>, pid: u32) -> Seq<u8> {
    let m = memory::put(m, 0, magic());
    let m = memory::put32(m, GH_VERSION as int, VERSION);
    let m = memory::put32(m, GH_MAX_CLIENTS as int, c.max_clients);
    let m = memory::put32(m, GH_BLOCK_COUNT as int, c.block_count);
    let m = memory::put32(m, GH_BLOCK_SIZE as int, c.block_size);
    let m = memory::put32(m, GH_RING_DEPTH as int, c.ring_depth);
    let m = memory::put64(m, GH_PID as int, pid as u64);
    memory::put64(m, GH_STALE_TIMEOUT_US as int, c.stale_timeout_us)
}

/// A new segment: all blocks are free, and all rings are empty.
pub open spec fn created(c: PubSubRpcConfig, m: Seq<u8>, pid: u32, now: u64) -> Seq<u8> {
    let m = pool_of(c).after_init(with_header(c, m, pid));
    let m = memory::put64(m, GH_HEARTBEAT as int, now);
    let m = rings::with_empty_entries(m, req_base(c), (c.max_clients * c.ring_depth) as nat);
    rings::with_empty_entries(m, resp_base(c), (c.max_clients * c.ring_depth) as nat)
}

/// The parameters in a header. The heartbeat interval is not part of it.
pub open spec fn header_config(m: Seq<u8>) -> PubSubRpcConfig {
    PubSubRpcConfig {
        max_clients: memory::u32_at(m, GH_MAX_CLIENTS as int),
        block_count: memory::u32_at(m, GH_BLOCK_COUNT as int),
        block_size: memory::u32_at(m, GH_BLOCK_SIZE as int),
        ring_depth: memory::u32_at(m, GH_RING_DEPTH as int),
        heartbeat_interval_us: default_config().heartbeat_interval_us,
        stale_timeout_us: memory::u64_at(m, GH_STALE_TIMEOUT_US as int),
    }
}

/// What is wrong with a segment to connect to.
pub open spec fn header_fault(m: Seq<u8>) -> Option<error::CrossbarErrorView> {
    let c = header_config(m);
    let version = memory::u32_at(m, GH_VERSION as int);
    if m.len() < HEADER_SIZE {
        Some(error::CrossbarErrorView::ShmInvalidRegion("region too small for header"@))
    } else if memory::bytes_at(m, 0, 8) != magic() {
        Some(error::CrossbarErrorView::ShmInvalidRegion("invalid magic (expected XBAR_RC)"@))
    } else if version != VERSION {
        Some(
            error::CrossbarErrorView::ShmInvalidRegion(
                "unsupported version "@ + text::decimal(version as nat) + ", expected 1"@,
            ),
        )
    } else if region_size(c) > usize::MAX {
        Some(error::CrossbarErrorView::ShmInvalidRegion("corrupted region header"@))
    } else if m.len() < region_size(c) {
        Some(
            error::CrossbarErrorView::ShmInvalidRegion(
                "region size "@ + text::decimal(m.len()) + " < expected "@ + text::decimal(
                    region_size(c) as nat,
                ),
            ),
        )
    } else {
        None
    }
}

/// The mark of a connected client.
pub open spec fn active(m: Seq<u8>, client: int) -> u32 {
    memory::u32_at(m, client_off(client) + CE_ACTIVE)
}

/// Sequence number of the newest request of a client.
pub open spec fn req_seq(m: Seq<u8>, client: int) -> u64 {
    memory::u64_at(m, client_off(client) + CE_REQ_WRITE_SEQ)
}

/// Sequence number of the newest response to a client.
pub open spec fn resp_seq(m: Seq<u8>, client: int) -> u64 {
    memory::u64_at(m, client_off(client) + CE_RESP_WRITE_SEQ)
}

/// The segment after a request was put in its ring.
pub open spec fn with_request(
    c: PubSubRpcConfig,
    m: Seq<u8>,
    client: int,
    block: u32,
    len: u32,
    seq: u64,
) -> Seq<u8> {
    memory::put64(
        rings::with_entry(m, req_off(c, client, seq), block, len, seq),
        client_off(client) + CE_REQ_WRITE_SEQ,
        seq,
    )
}

/// The segment after a response was put in its ring.
pub open spec fn with_response(
    c: PubSubRpcConfig,
    m: Seq<u8>,
    client: int,
    block: u32,
    len: u32,
    seq: u64,
) -> Seq<u8> {
    memory::put64(
        rings::with_entry(m, resp_off(c, client, seq), block, len, seq),
        client_off(client) + CE_RESP_WRITE_SEQ,
        seq,
    )
}

/// Block and length in a ring entry, if it has the sequence number.
pub open spec fn entry_in(m: Seq<u8>, e: int, seq: u64) -> Option<(u32, u32)> {
    if rings::entry_seq(m, e) != seq || rings::entry_block(m, e) == NO_BLOCK {
        None
    } else {
        Some((rings::entry_block(m, e), rings::entry_len(m, e)))
    }
}

/// What putting a request in the ring of a client stores, in this order: the ring
/// entry, and the number of the newest request.
pub open spec fn request_stores(
    c: PubSubRpcConfig,
    client: int,
    block: u32,
    len: u32,
    seq: u64,
) -> Accesses {
    rings::entry_stores(req_off(c, client, seq), block, len, seq).push(
        Access::Word64 { off: client_off(client) + CE_REQ_WRITE_SEQ, v: seq },
    )
}

/// What putting a response in the ring of a client stores, in this order: the ring
/// entry, and the number of the newest response.
pub open spec fn response_stores(
    c: PubSubRpcConfig,
    client: int,
    block: u32,
    len: u32,
    seq: u64,
) -> Accesses {
    rings::entry_stores(resp_off(c, client, seq), block, len, seq).push(
        Access::Word64 { off: client_off(client) + CE_RESP_WRITE_SEQ, v: seq },
    )
}

/// The word of a client changes that it watches while it waits for a response.
pub open spec fn client_told(client: int, was: u32) -> Access {
    Access::Add32 { off: client_off(client) + CE_RESP_NOTIFY, v: 1, was }
}

/// The word changes that a server watches while it waits for work.
pub open spec fn server_told(was: u32) -> Access {
    Access::Add32 { off: GH_SERVER_NOTIFY as int, v: 1, was }
}

/// What taking the entry of a client does: it is claimed by an exchange, so that no
/// two clients have it, and then gets the data of the client.
pub open spec fn client_stores(client: int, pid: u32, client_id: u64) -> Accesses {
    let off = client_off(client);
    seq![
        Access::Exchange32 { off: off + CE_ACTIVE, current: 0, new: 1, found: Ok(0) },
        Access::Word64 { off: off + CE_REQ_WRITE_SEQ, v: 0 },
        Access::Word64 { off: off + CE_RESP_WRITE_SEQ, v: 0 },
        Access::Word32 { off: off + CE_CLIENT_PID, v: pid },
        Access::Word64 { off: off + CE_CLIENT_ID, v: client_id },
    ]
}

/// What a server does that is about to sleep, in this order: it sees the word that it
/// will watch, counts as sleeping, and looks at the word once more; it is counted off
/// again if the word has changed. So a client that changes the word after that look
/// finds it counted.
pub open spec fn work_looks(current: u32, again: u32, was: u32, then_was: u32) -> Accesses {
    let looks = seq![
        Access::Look32 { off: GH_SERVER_NOTIFY as int, found: current },
        Access::Add32 { off: GH_SERVER_WAITERS as int, v: 1, was },
        Access::Look32 { off: GH_SERVER_NOTIFY as int, found: again },
    ];
    if again == current {
        looks
    } else {
        looks.push(Access::Subtract32 { off: GH_SERVER_WAITERS as int, v: 1, was: then_was })
    }
}

/// A message is copied out of a block.
pub open spec fn message_copied(c: PubSubRpcConfig, block: u32, found: Seq<u8>) -> Access {
    Access::Copied { off: data_off(c, block as int), found }
}

/// What a client does that is about to sleep, with its looks for a response `a` and
/// `b`.
pub open spec fn sleep_looks(
    client: int,
    word: u32,
    a: Accesses,
    was: u32,
    b: Accesses,
) -> Accesses {
    let off = client_off(client);
    seq![Access::Look32 { off: off + CE_RESP_NOTIFY, found: word }] + a + seq![
        Access::Add32 { off: off + CE_RESP_WAITERS, v: 1, was },
    ] + b
}

/// What taking a response from the ring entry at `e` does.
pub open spec fn response_taken(
    c: PubSubRpcConfig,
    e: int,
    look: EntryLook,
    found: Seq<u8>,
    given: Accesses,
) -> Accesses {
    rings::entry_looks(e, look) + seq![message_copied(c, look.block, found)] + given
}

/// What is done behind the end of a record continues that end.
proof fn lemma_took(all: Accesses, end: Accesses, more: Accesses)
    requires
        reading::ends_with(all, end),
    ensures
        reading::ends_with(all + more, end + more),
{
    let n = all + more;
    let o = end + more;
    assert(n.subrange(n.len() - o.len(), n.len() as int) =~= all.subrange(
        all.len() - end.len(),
        all.len() as int,
    ) + more);
}

/// The server is told, where it is to be.
pub open spec fn tells_server(told: Accesses, wake: bool) -> bool {
    if wake {
        exists|was: u32| told == seq![#[trigger] server_told(was)]
    } else {
        told.len() == 0
    }
}

/// A request is written in a block.
pub open spec fn request_written(
    c: PubSubRpcConfig,
    block: u32,
    v: types::RequestView,
    correlation: u32,
) -> Access {
    Access::Bytes {
        off: data_off(c, block as int),
        data: rpc_message::request_message(v, correlation),
    }
}

/// A response is written in a block.
pub open spec fn response_written(
    c: PubSubRpcConfig,
    block: u32,
    v: types::ResponseView,
    correlation: u32,
) -> Accesses {
    let d = data_off(c, block as int);
    seq![
        Access::Bytes { off: d, data: memory::le16(v.status) },
        Access::Bytes { off: d + 4, data: rpc_message::response_tail(v, correlation) },
    ]
}

/// What a client does in the end that sends a request: the message is in the block
/// before the ring names it, and only then the server is told.
pub open spec fn sends(
    c: PubSubRpcConfig,
    client: int,
    block: u32,
    v: types::RequestView,
    correlation: u32,
    seq: u64,
    told: Accesses,
) -> Accesses {
    let len = rpc_message::request_message(v, correlation).len() as u32;
    seq![request_written(c, block, v, correlation)] + request_stores(c, client, block, len, seq)
        + told
}

/// What a server does in the end that sends a response: the message is in the
/// block before the ring names it, and only then the client is told.
pub open spec fn answers(
    c: PubSubRpcConfig,
    client: int,
    block: u32,
    sent: Option<types::ResponseView>,
    correlation: u32,
    seq: u64,
    was: u32,
) -> Accesses {
    let told = seq![client_told(client, was)];
    match sent {
        Some(v) => response_written(c, block, v, correlation) + response_stores(
            c,
            client,
            block,
            rpc_message::response_len(v) as u32,
            seq,
        ) + told,
        None => response_stores(c, client, block, 0, seq) + told,
    }
}

/// What a reader looks at that finds the message `seq` in the ring entry at `e`,
/// or does not.
pub open spec fn entry_tried(
    e: int,
    seq: u64,
    ops: Accesses,
    r: Option<(u32, u32)>,
) -> bool {
    match r {
        Some((block, len)) => ops == rings::entry_looks(
            e,
            EntryLook { before: seq, block, len, after: seq },
        ),
        None => {
            ||| exists|found: u64|
                found != seq && ops == seq![
                    #[trigger] reading::look(e + RE_SEQ, found),
                ]
            ||| exists|look: EntryLook|
                {
                    &&& look.before == seq
                    &&& reading::entry_seen(seq, look, NO_BLOCK, u32::MAX as int) is None
                    &&& ops == #[trigger] rings::entry_looks(e, look)
                }
        },
    }
}

/// What a look for the message behind `last` does, whose ring entry lies at `e` and
/// whose ring has the number of its newest message at `count`: the entry is looked at
/// only if there is a newer message.
pub open spec fn ring_tried(
    count: int,
    e: int,
    last: u64,
    ops: Accesses,
    r: Option<(u32, u32)>,
) -> bool {
    exists|newest: u64, rest: Accesses|
        {
            &&& ops == seq![#[trigger] reading::look(count, newest)] + rest
            &&& #[trigger] newer_tried(e, last, newest, rest, r)
        }
}

/// What is done after the number of the newest message was seen.
pub open spec fn newer_tried(
    e: int,
    last: u64,
    newest: u64,
    rest: Accesses,
    r: Option<(u32, u32)>,
) -> bool {
    if newest <= last || last == u64::MAX {
        rest.len() == 0 && r is None
    } else {
        entry_tried(e, (last + 1) as u64, rest, r)
    }
}

/// A message that was found, without its number.
pub open spec fn block_and_len(r: Option<(u32, u32, u64)>) -> Option<(u32, u32)> {
    match r {
        Some(x) => Some((x.0, x.1)),
        None => None,
    }
}

/// A record ends with the looks at the ring entry at `e` that found the message
/// `x`, given by its block, length and number.
pub open spec fn found_last(all: Accesses, e: int, x: (u32, u32, u64)) -> bool {
    reading::ends_with(
        all,
        rings::entry_looks(e, EntryLook { before: x.2, block: x.0, len: x.1, after: x.2 }),
    )
}

/// The request that comes after `last`, if it is there.
pub open spec fn next_request(c: PubSubRpcConfig, m: Seq<u8>, client: int, last: u64) -> Option<
    (u32, u32),
> {
    if req_seq(m, client) <= last {
        None
    } else {
        entry_in(m, req_off(c, client, (last + 1) as u64), (last + 1) as u64)
    }
}

/// The response that comes after `last`, if it is there.
pub open spec fn next_response(c: PubSubRpcConfig, m: Seq<u8>, client: int, last: u64) -> Option<
    (u32, u32),
> {
    if resp_seq(m, client) <= last {
        None
    } else {
        entry_in(m, resp_off(c, client, (last + 1) as u64), (last + 1) as u64)
    }
}

/// The bytes of a message: as many as announced, but none beyond the block.
pub open spec fn message_at(c: PubSubRpcConfig, m: Seq<u8>, block: u32, len: u32) -> Seq<u8> {
    let n = if len < capacity_of(c) {
        len as int
    } else {
        capacity_of(c)
    };
    memory::bytes_at(m, data_off(c, block as int), n)
}

/// The request in a block, or what is wrong with it.
pub open spec fn request_at(c: PubSubRpcConfig, m: Seq<u8>, block: u32, len: u32) -> Result<
    (types::RequestView, u32),
    error::CrossbarErrorView,
> {
    if block >= c.block_count {
        Err(exchange::block_fault(block, c.block_count))
    } else {
        rpc_message::request_in(message_at(c, m, block, len))
    }
}

/// The response in a block, or what is wrong with it.
pub open spec fn response_at(c: PubSubRpcConfig, m: Seq<u8>, block: u32, len: u32) -> Result<
    (types::ResponseView, u32),
    error::CrossbarErrorView,
> {
    if block >= c.block_count {
        Err(exchange::block_fault(block, c.block_count))
    } else {
        rpc_message::response_in(message_at(c, m, block, len))
    }
}

/// The segment after a response that fits was written in a block.
pub open spec fn with_response_message(
    c: PubSubRpcConfig,
    m: Seq<u8>,
    block: u32,
    v: types::ResponseView,
    correlation: u32,
) -> Seq<u8> {
    let d = data_off(c, block as int);
    memory::put(
        memory::put(m, d, memory::le16(v.status)),
        d + 4,
        rpc_message::response_tail(v, correlation),
    )
}

/// Whether a response fits in a block.
pub open spec fn response_fits(c: PubSubRpcConfig, v: types::ResponseView) -> bool {
    rpc_message::message_fault(
        rpc_message::response_used(v),
        v.headers,
        capacity_of(c) as nat,
    ) is None
}

/// The segment after a message was refused because it does not fit: `used` is
/// what would stand before its headers, of which some are in the block.
pub open spec fn after_refused(
    c: PubSubRpcConfig,
    m: Seq<u8>,
    block: u32,
    used: nat,
    p: types::Pairs,
) -> Seq<u8> {
    memory::put(
        m,
        data_off(c, block as int) + used,
        rpc_message::headers_tried(used, p, capacity_of(c) as nat),
    )
}

/// The segment after a response was tried: unchanged where it fits.
pub open spec fn after_tried(
    c: PubSubRpcConfig,
    m: Seq<u8>,
    block: u32,
    v: types::ResponseView,
) -> Seq<u8> {
    if response_fits(c, v) {
        m
    } else {
        after_refused(c, m, block, rpc_message::response_used(v), v.headers)
    }
}

/// What a server sends in place of a response: itself where it fits, a bare
/// status 500 otherwise, or nothing where not even that fits.
pub open spec fn sent_response(c: PubSubRpcConfig, v: types::ResponseView) -> Option<
    types::ResponseView,
> {
    let failed = types::plain_response(500, Seq::empty());
    if response_fits(c, v) {
        Some(v)
    } else if response_fits(c, failed) {
        Some(failed)
    } else {
        None
    }
}

/// The segment after a server wrote a response in a block and put it in the
/// ring of a client, whom it then tells.
pub open spec fn after_respond(
    c: PubSubRpcConfig,
    m: Seq<u8>,
    client: int,
    block: u32,
    v: Option<types::ResponseView>,
    correlation: u32,
    seq: u64,
) -> Seq<u8> {
    let (m, len) = match v {
        Some(w) => (
            with_response_message(c, m, block, w, correlation),
            rpc_message::response_len(w) as u32,
        ),
        None => (m, 0),
    };
    let m = with_response(c, m, client, block, len, seq);
    let w = client_off(client) + CE_RESP_NOTIFY;
    memory::put32(m, w, memory::wrapping_sum_u32(memory::u32_at(m, w), 1))
}

fn invalid(m: &str) -> (r: CrossbarError)
    ensures
        r@ == error::CrossbarErrorView::ShmInvalidRegion(m@),
{
    CrossbarError::ShmInvalidRegion(text::text(m))
}

fn out_of_bounds(block: u32, count: u32) -> (r: CrossbarError)
    ensures
        r@ == exchange::block_fault(block, count),
{
    let s: String = add_number(text::text("block index "), block as u64);
    let s: String = add_number(add_text(s, " out of bounds (max "), count as u64);
    CrossbarError::ShmInvalidRegion(add_text(s, ")"))
}

/// A segment as one party sees it.
pub struct RpcRegion<M: SharedMemory> {
    /// The segment.
    pub mem: M,
    /// Its parameters.
    pub config: PubSubRpcConfig,
}

impl<M: SharedMemory> RpcRegion<M> {
    /// The segment has room for its parts.
    pub open spec fn fits(&self) -> bool {
        region_size(self.config) <= self.mem.image().len() <= usize::MAX
    }

    /// The segment has room for its parts, and its rings and blocks can be used.
    pub open spec fn wf(&self) -> bool {
        sound(self.config) && self.fits()
    }

    /// Whether rings and blocks can be used: those of a segment that was created
    /// can, those that a foreign header announces perhaps not.
    pub fn is_usable(&self) -> (r: bool)
        requires
            self.fits(),
        ensures
            r == self.wf(),
    {
        self.config.block_size as usize >= BLOCK_DATA_OFFSET && self.config.ring_depth > 0
    }

    /// `other` is the same segment at a later moment.
    pub open spec fn same_segment(&self, other: &Self) -> bool {
        &&& other.config == self.config
        &&& other.mem.image().len() == self.mem.image().len()
        &&& other.mem.exclusive() == self.mem.exclusive()
        &&& other.mem.contention() <= self.mem.contention()
    }

    /// Makes a new segment of some memory: a header, free blocks, and empty
    /// rings.
    pub fn create(config: &PubSubRpcConfig, mem: M, pid: u32, now: u64) -> (r: RpcRegion<M>)
        requires
            sound(*config),
            mem.image().len() >= region_size(*config),
        ensures
            r.wf(),
            r.config == *config,
            r.mem.image().len() == mem.image().len(),
            r.mem.exclusive() == mem.exclusive(),
            mem.exclusive() ==> r.mem.image() == created(*config, mem.image(), pid, now),
    {
        proof {
            lemma_parts(*config);
            cells::lemma_table(config.max_clients as int, config.ring_depth as int, 16);
            cells::lemma_many_cells(config.max_clients as int, config.ring_depth as int, 16);
        }
        let size: usize = mem.size();
        let mut region: RpcRegion<M> = RpcRegion { mem, config: *config };
        let start: Vec<u8> = magic_bytes();
        region.mem.write(0, start.as_slice());
        region.mem.store_u32(GH_VERSION, VERSION);
        region.mem.store_u32(GH_MAX_CLIENTS, config.max_clients);
        region.mem.store_u32(GH_BLOCK_COUNT, config.block_count);
        region.mem.store_u32(GH_BLOCK_SIZE, config.block_size);
        region.mem.store_u32(GH_RING_DEPTH, config.ring_depth);
        region.mem.store_u64(GH_PID, pid as u64);
        region.mem.store_u64(GH_STALE_TIMEOUT_US, config.stale_timeout_us);
        let p: PoolLayout = region.pool();
        p.init_free_list(&mut region.mem);
        region.update_heartbeat(now);
        let base: usize = HEADER_SIZE + config.max_clients as usize * CLIENT_ENTRY_SIZE;
        let entries: usize = config.max_clients as usize * config.ring_depth as usize;
        clear_entries(&mut region.mem, base, entries);
        clear_entries(&mut region.mem, base + entries * RING_ENTRY_SIZE, entries);
        region
    }

    /// Opens a segment that is there. Whatever it holds, what is accepted has
    /// room for its parts.
    pub fn open(mem: M) -> (r: Result<RpcRegion<M>, CrossbarError>)
        ensures
            r matches Ok(s) ==> s.fits() && s.mem == mem,
            mem.exclusive() ==> match header_fault(mem.image()) {
                None => r matches Ok(s) && s.config == header_config(mem.image()),
                Some(f) => r matches Err(e) && e@ == f,
            },
    {
        let len: usize = mem.size();
        if len < HEADER_SIZE {
            return Err(invalid("region too small for header"));
        }
        let found: Vec<u8> = mem.read(0, 8);
        let expected: Vec<u8> = magic_bytes();
        if !memory::same_bytes(found.as_slice(), expected.as_slice()) {
            return Err(invalid("invalid magic (expected XBAR_RC)"));
        }
        let version: u32 = mem.load_u32(GH_VERSION);
        if version != VERSION {
            let s: String = add_number(text::text("unsupported version "), version as u64);
            return Err(CrossbarError::ShmInvalidRegion(add_text(s, ", expected 1")));
        }
        let defaults: PubSubRpcConfig = PubSubRpcConfig::default();
        let config: PubSubRpcConfig = PubSubRpcConfig {
            max_clients: mem.load_u32(GH_MAX_CLIENTS),
            block_count: mem.load_u32(GH_BLOCK_COUNT),
            block_size: mem.load_u32(GH_BLOCK_SIZE),
            ring_depth: mem.load_u32(GH_RING_DEPTH),
            heartbeat_interval_us: defaults.heartbeat_interval_us,
            stale_timeout_us: mem.load_u64(GH_STALE_TIMEOUT_US),
        };
        let size: usize = match size_of_parts(&config) {
            Some(n) => n,
            None => {
                return Err(invalid("corrupted region header"));
            },
        };
        if len < size {
            let s: String = add_number(text::text("region size "), len as u64);
            let s: String = add_number(add_text(s, " < expected "), size as u64);
            return Err(CrossbarError::ShmInvalidRegion(s));
        }
        Ok(RpcRegion { mem, config })
    }

    /// Offset of a client entry.
    pub fn client_at(&self, client: u32) -> (r: usize)
        requires
            self.fits(),
            client < self.config.max_clients,
        ensures
            r == client_off(client as int),
            r + CLIENT_ENTRY_SIZE <= self.mem.image().len() <= usize::MAX,
    {
        proof {
            lemma_client(self.config, client as int);
        }
        HEADER_SIZE + client as usize * CLIENT_ENTRY_SIZE
    }

    fn request_entry(&self, client: u32, seq: u64) -> (r: usize)
        requires
            self.wf(),
            client < self.config.max_clients,
        ensures
            r == req_off(self.config, client as int, seq),
            r + RING_ENTRY_SIZE <= self.mem.image().len() <= usize::MAX,
    {
        proof {
            lemma_rings(self.config, client as int, seq);
            lemma_parts(self.config);
        }
        let slot: u32 = (seq % self.config.ring_depth as u64) as u32;
        let base: usize = HEADER_SIZE + self.config.max_clients as usize * CLIENT_ENTRY_SIZE;
        cell_off(
            base,
            self.config.max_clients,
            self.config.ring_depth,
            RING_ENTRY_SIZE,
            client,
            slot,
        )
    }

    fn response_entry(&self, client: u32, seq: u64) -> (r: usize)
        requires
            self.wf(),
            client < self.config.max_clients,
        ensures
            r == resp_off(self.config, client as int, seq),
            r + RING_ENTRY_SIZE <= self.mem.image().len() <= usize::MAX,
    {
        proof {
            lemma_rings(self.config, client as int, seq);
            lemma_parts(self.config);
            cells::lemma_many_cells(
                self.config.max_clients as int,
                self.config.ring_depth as int,
                16,
            );
            cells::lemma_table(
                self.config.max_clients as int,
                self.config.ring_depth as int,
                16,
            );
        }
        let slot: u32 = (seq % self.config.ring_depth as u64) as u32;
        let entries: usize = self.config.max_clients as usize * self.config.ring_depth as usize;
        let base: usize = HEADER_SIZE + self.config.max_clients as usize * CLIENT_ENTRY_SIZE
            + entries * RING_ENTRY_SIZE;
        cell_off(
            base,
            self.config.max_clients,
            self.config.ring_depth,
            RING_ENTRY_SIZE,
            client,
            slot,
        )
    }

    fn pool(&self) -> (r: PoolLayout)
        requires
            self.wf(),
        ensures
            r == pool_of(self.config),
            r.fits(self.mem.image().len()),
    {
        proof {
            lemma_parts(self.config);
            lemma_pool(self.config, self.mem.image().len());
            cells::lemma_many_cells(
                self.config.max_clients as int,
                self.config.ring_depth as int,
                16,
            );
            cells::lemma_table(
                self.config.max_clients as int,
                self.config.ring_depth as int,
                16,
            );
        }
        let base: usize = HEADER_SIZE + self.config.max_clients as usize * CLIENT_ENTRY_SIZE;
        let entries: usize = self.config.max_clients as usize * self.config.ring_depth as usize;
        PoolLayout {
            head: GH_POOL_HEAD,
            base: base + entries * RING_ENTRY_SIZE + entries * RING_ENTRY_SIZE,
            block_size: self.config.block_size,
            block_count: self.config.block_count,
            checks_links: false,
        }
    }

    fn data_at(&self, block: u32) -> (r: usize)
        requires
            self.wf(),
            block < self.config.block_count,
        ensures
            r == data_off(self.config, block as int),
            r + capacity_of(self.config) <= self.mem.image().len() <= usize::MAX,
    {
        proof {
            lemma_block(self.config, block as int);
        }
        let p: PoolLayout = self.pool();
        p.block_off(block) + BLOCK_DATA_OFFSET
    }

    /// Takes a block from the pool.
    pub fn alloc_block(&mut self) -> (r: Option<u32>)
        requires
            old(self).wf(),
        ensures
            final(self).wf(),
            old(self).same_segment(final(self)),
            r matches Some(block) ==> block < old(self).config.block_count,
            pool_of(old(self).config).took(old(self).mem, final(self).mem, r),
            old(self).mem.exclusive() ==> {
                &&& r == pool_of(old(self).config).alloc_choice(old(self).mem.image())
                &&& final(self).mem.image() == pool_of(old(self).config).after_alloc(
                    old(self).mem.image(),
                )
            },
    {
        let p: PoolLayout = self.pool();
        p.alloc_block(&mut self.mem)
    }

    /// Gives a block back to the pool. An index outside of the pool is ignored.
    pub fn free_block(&mut self, block: u32)
        requires
            old(self).wf(),
        ensures
            final(self).wf(),
            old(self).same_segment(final(self)),
            pool_of(old(self).config).gave(old(self).mem, final(self).mem, block),
            old(self).mem.exclusive() ==> final(self).mem.image() == pool_of(
                old(self).config,
            ).after_free(old(self).mem.image(), block),
    {
        let p: PoolLayout = self.pool();
        p.free_block(&mut self.mem, block);
    }

    /// Sets the heartbeat.
    pub fn update_heartbeat(&mut self, now: u64)
        requires
            old(self).wf(),
        ensures
            final(self).wf(),
            old(self).same_segment(final(self)),
            final(self).mem.accesses() == old(self).mem.accesses().push(
                (Access::Word64 { off: GH_HEARTBEAT as int, v: now }),
            ),
            old(self).mem.exclusive() ==> final(self).mem.image() == memory::put64(
                old(self).mem.image(),
                GH_HEARTBEAT as int,
                now,
            ),
    {
        proof {
            lemma_parts(self.config);
        }
        self.mem.store_u64(GH_HEARTBEAT, now);
    }

    /// Checks that the server is alive.
    pub fn check_heartbeat(&self, now: u64) -> (r: Result<(), CrossbarError>)
        requires
            self.fits(),
        ensures
            r matches Err(e) ==> e is ShmServerDead,
            self.mem.exclusive() ==> (r is Err <==> now - memory::u64_at(
                self.mem.image(),
                GH_HEARTBEAT as int,
            ) > self.config.stale_timeout_us),
    {
        proof {
            lemma_parts(self.config);
        }
        let beat: u64 = self.mem.load_u64(GH_HEARTBEAT);
        if now > beat && now - beat > self.config.stale_timeout_us {
            return Err(CrossbarError::ShmServerDead);
        }
        Ok(())
    }

    /// Tells the server of work, if it sleeps. Says whether it is to be woken.
    pub fn notify_server(&mut self) -> (r: bool)
        requires
            old(self).wf(),
        ensures
            final(self).wf(),
            old(self).same_segment(final(self)),
            exists|told: Accesses|
                {
                    &&& final(self).mem.accesses() == old(self).mem.accesses() + told
                    &&& #[trigger] tells_server(told, r)
                },
            old(self).mem.exclusive() ==> {
                let m = old(self).mem.image();
                let w = memory::u32_at(m, GH_SERVER_NOTIFY as int);
                &&& r == (memory::u32_at(m, GH_SERVER_WAITERS as int) > 0)
                &&& final(self).mem.image() == if r {
                    memory::put32(m, GH_SERVER_NOTIFY as int, memory::wrapping_sum_u32(w, 1))
                } else {
                    m
                }
            },
    {
        proof {
            lemma_parts(self.config);
        }
        if self.mem.load_u32(GH_SERVER_WAITERS) > 0 {
            let before: u32 = self.mem.fetch_add_u32(GH_SERVER_NOTIFY, 1);
            proof {
                let told = seq![server_told(before)];
                assert(self.mem.accesses() =~= old(self).mem.accesses() + told);
                assert(tells_server(told, true));
            }
            return true;
        }
        proof {
            let none = Seq::<Access>::empty();
            assert(self.mem.accesses() =~= old(self).mem.accesses() + none);
            assert(tells_server(none, false));
        }
        false
    }

    /// Begins to wait for work: the server counts as sleeping, and is to sleep
    /// until the word of which this is the value changes, and then to call
    /// `work_wait_done`. `None` if the word has changed in between.
    pub fn wait_for_work(&mut self) -> (r: Option<u32>)
        requires
            old(self).wf(),
        ensures
            final(self).wf(),
            old(self).same_segment(final(self)),
            exists|current: u32, again: u32, was: u32, then_was: u32|
                {
                    &&& final(self).mem.accesses() == old(self).mem.accesses()
                        + #[trigger] work_looks(current, again, was, then_was)
                    &&& r == if again == current {
                        Some(current)
                    } else {
                        None
                    }
                },
            old(self).mem.exclusive() ==> {
                let m = old(self).mem.image();
                &&& r == Some(memory::u32_at(m, GH_SERVER_NOTIFY as int))
                &&& final(self).mem.image() == memory::put32(
                    m,
                    GH_SERVER_WAITERS as int,
                    memory::wrapping_sum_u32(
                        memory::u32_at(m, GH_SERVER_WAITERS as int),
                        1,
                    ),
                )
            },
    {
        proof {
            lemma_parts(self.config);
        }
        let current: u32 = self.mem.look_u32(GH_SERVER_NOTIFY);
        let before: u32 = self.mem.fetch_add_u32(GH_SERVER_WAITERS, 1);
        let again: u32 = self.mem.look_u32(GH_SERVER_NOTIFY);
        if again != current {
            let then_before: u32 = self.mem.fetch_sub_u32(GH_SERVER_WAITERS, 1);
            assert(self.mem.accesses() =~= old(self).mem.accesses() + work_looks(
                current,
                again,
                before,
                then_before,
            ));
            return None;
        }
        assert(self.mem.accesses() =~= old(self).mem.accesses() + work_looks(
            current,
            again,
            before,
            0,
        ));
        Some(current)
    }

    /// Ends a wait for work in which the server slept.
    pub fn work_wait_done(&mut self)
        requires
            old(self).wf(),
        ensures
            final(self).wf(),
            old(self).same_segment(final(self)),
            exists|was: u32|
                final(self).mem.accesses() == old(self).mem.accesses().push(
                    #[trigger] memory::one_less(GH_SERVER_WAITERS as int, was),
                ),
            old(self).mem.exclusive() ==> {
                let m = old(self).mem.image();
                final(self).mem.image() == memory::put32(
                    m,
                    GH_SERVER_WAITERS as int,
                    memory::wrapping_difference_u32(
                        memory::u32_at(m, GH_SERVER_WAITERS as int),
                        1,
                    ),
                )
            },
    {
        proof {
            lemma_parts(self.config);
        }
        let before: u32 = self.mem.fetch_sub_u32(GH_SERVER_WAITERS, 1);
        assert(self.mem.accesses() == old(self).mem.accesses().push(
            memory::one_less(GH_SERVER_WAITERS as int, before),
        ));
    }

    /// The mark of a connected client.
    pub fn client_active(&self, client: u32) -> (r: u32)
        requires
            self.wf(),
            client < self.config.max_clients,
        ensures
            self.mem.exclusive() ==> r == active(self.mem.image(), client as int),
    {
        let off: usize = self.client_at(client);
        self.mem.load_u32(off + CE_ACTIVE)
    }

    /// Whether a client has sent more requests than the server has seen.
    pub fn has_request(&self, client: u32, last: u64) -> (r: bool)
        requires
            self.wf(),
            client < self.config.max_clients,
        ensures
            self.mem.exclusive() ==> r == (req_seq(self.mem.image(), client as int) > last),
    {
        let off: usize = self.client_at(client);
        self.mem.load_u64(off + CE_REQ_WRITE_SEQ) > last
    }

    /// Puts a request in the ring of its client.
    pub fn publish_request(&mut self, client: u32, block: u32, len: u32, seq: u64)
        requires
            old(self).wf(),
            client < old(self).config.max_clients,
        ensures
            final(self).wf(),
            old(self).same_segment(final(self)),
            final(self).mem.accesses() == old(self).mem.accesses() + request_stores(
                old(self).config,
                client as int,
                block,
                len,
                seq,
            ),
            old(self).mem.exclusive() ==> final(self).mem.image() == with_request(
                old(self).config,
                old(self).mem.image(),
                client as int,
                block,
                len,
                seq,
            ),
    {
        let e: usize = self.request_entry(client, seq);
        let off: usize = self.client_at(client);
        write_entry(&mut self.mem, e, block, len, seq);
        self.mem.store_u64(off + CE_REQ_WRITE_SEQ, seq);
        assert(self.mem.accesses() =~= old(self).mem.accesses() + request_stores(
            self.config,
            client as int,
            block,
            len,
            seq,
        ));
    }

    /// Puts a response in the ring of its client.
    pub fn publish_response(&mut self, client: u32, block: u32, len: u32, seq: u64)
        requires
            old(self).wf(),
            client < old(self).config.max_clients,
        ensures
            final(self).wf(),
            old(self).same_segment(final(self)),
            final(self).mem.accesses() == old(self).mem.accesses() + response_stores(
                old(self).config,
                client as int,
                block,
                len,
                seq,
            ),
            old(self).mem.exclusive() ==> final(self).mem.image() == with_response(
                old(self).config,
                old(self).mem.image(),
                client as int,
                block,
                len,
                seq,
            ),
    {
        let e: usize = self.response_entry(client, seq);
        let off: usize = self.client_at(client);
        write_entry(&mut self.mem, e, block, len, seq);
        self.mem.store_u64(off + CE_RESP_WRITE_SEQ, seq);
        assert(self.mem.accesses() =~= old(self).mem.accesses() + response_stores(
            self.config,
            client as int,
            block,
            len,
            seq,
        ));
    }

    fn try_recv_from_ring(&mut self, e: usize, seq: u64) -> (r: Option<(u32, u32)>)
        requires
            old(self).wf(),
            e + RING_ENTRY_SIZE <= old(self).mem.image().len() <= usize::MAX,
        ensures
            final(self).wf(),
            old(self).same_segment(final(self)),
            exists|ops: Accesses|
                {
                    &&& final(self).mem.accesses() == old(self).mem.accesses() + ops
                    &&& #[trigger] entry_tried(e as int, seq, ops, r)
                },
            r matches Some(x) ==> found_last(
                final(self).mem.accesses(),
                e as int,
                (x.0, x.1, seq),
            ),
            old(self).mem.exclusive() ==> {
                &&& r == entry_in(old(self).mem.image(), e as int, seq)
                &&& final(self).mem.image() == old(self).mem.image()
            },
    {
        let ghost first = self.mem.accesses();
        let before: u64 = self.mem.look_u64(e + RE_SEQ);
        if before != seq {
            proof {
                let ops = seq![reading::look(e + RE_SEQ, before)];
                assert(self.mem.accesses() =~= first + ops);
                assert(entry_tried(e as int, seq, ops, None));
            }
            return None;
        }
        let block: u32 = self.mem.look_u32(e + RE_BLOCK_IDX);
        let len: u32 = self.mem.look_u32(e + RE_DATA_LEN);
        let after: u64 = self.mem.look_u64(e + RE_SEQ);
        let look: EntryLook = EntryLook { before, block, len, after };
        let r: Option<(u32, u32)> = reading::judge_entry(
            seq,
            look,
            NO_BLOCK,
            0xFFFF_FFFF,
        );
        proof {
            let ops = rings::entry_looks(e as int, look);
            assert(self.mem.accesses() =~= first + ops);
            assert(entry_tried(e as int, seq, ops, r));
            reading::lemma_ends_with(first, ops);
        }
        r
    }

    /// The request of a client that comes after `last`: block, length and
    /// sequence number.
    pub fn try_recv_request(&mut self, client: u32, last: u64) -> (r: Option<(u32, u32, u64)>)
        requires
            old(self).wf(),
            client < old(self).config.max_clients,
        ensures
            final(self).wf(),
            old(self).same_segment(final(self)),
            r matches Some(x) ==> x.2 == last + 1 && found_last(
                final(self).mem.accesses(),
                req_off(old(self).config, client as int, x.2),
                x,
            ),
            exists|ops: Accesses|
                {
                    &&& final(self).mem.accesses() == old(self).mem.accesses() + ops
                    &&& #[trigger] ring_tried(
                        client_off(client as int) + CE_REQ_WRITE_SEQ,
                        req_off(old(self).config, client as int, (last + 1) as u64),
                        last,
                        ops,
                        block_and_len(r),
                    )
                },
            old(self).mem.exclusive() ==> final(self).mem.image() == old(self).mem.image(),
            old(self).mem.exclusive() ==> match next_request(
                old(self).config,
                old(self).mem.image(),
                client as int,
                last,
            ) {
                Some((block, len)) => r == Some((block, len, (last + 1) as u64)),
                None => r is None,
            },
    {
        let ghost first = self.mem.accesses();
        let ghost c = self.config;
        let ghost count = client_off(client as int) + CE_REQ_WRITE_SEQ;
        let ghost at = req_off(c, client as int, (last + 1) as u64);
        let off: usize = self.client_at(client);
        let newest: u64 = self.mem.look_u64(off + CE_REQ_WRITE_SEQ);
        let ghost look = seq![reading::look(count, newest)];
        assert(self.mem.accesses() =~= first + look);
        if newest <= last || last == u64::MAX {
            proof {
                let none = Seq::<Access>::empty();
                assert(look + none =~= look);
                assert(newer_tried(at, last, newest, none, None));
                assert(ring_tried(count, at, last, look, None));
            }
            return None;
        }
        let seq: u64 = last + 1;
        let e: usize = self.request_entry(client, seq);
        let found: Option<(u32, u32)> = self.try_recv_from_ring(e, seq);
        proof {
            let rest = choose|rest: Accesses|
                self.mem.accesses() == first + look + rest && #[trigger] entry_tried(
                    e as int,
                    seq,
                    rest,
                    found,
                );
            assert(newer_tried(at, last, newest, rest, found));
            assert(ring_tried(count, at, last, look + rest, found));
            assert(self.mem.accesses() =~= first + (look + rest));
        }
        match found {
            Some((block, len)) => Some((block, len, seq)),
            None => None,
        }
    }

    /// The response to a client that comes after `last`: block, length and
    /// sequence number.
    pub fn try_recv_response(&mut self, client: u32, last: u64) -> (r: Option<(u32, u32, u64)>)
        requires
            old(self).wf(),
            client < old(self).config.max_clients,
        ensures
            final(self).wf(),
            old(self).same_segment(final(self)),
            r matches Some(x) ==> x.2 == last + 1 && found_last(
                final(self).mem.accesses(),
                resp_off(old(self).config, client as int, x.2),
                x,
            ),
            exists|ops: Accesses|
                {
                    &&& final(self).mem.accesses() == old(self).mem.accesses() + ops
                    &&& #[trigger] ring_tried(
                        client_off(client as int) + CE_RESP_WRITE_SEQ,
                        resp_off(old(self).config, client as int, (last + 1) as u64),
                        last,
                        ops,
                        block_and_len(r),
                    )
                },
            old(self).mem.exclusive() ==> final(self).mem.image() == old(self).mem.image(),
            old(self).mem.exclusive() ==> match next_response(
                old(self).config,
                old(self).mem.image(),
                client as int,
                last,
            ) {
                Some((block, len)) => r == Some((block, len, (last + 1) as u64)),
                None => r is None,
            },
    {
        let ghost first = self.mem.accesses();
        let ghost c = self.config;
        let ghost count = client_off(client as int) + CE_RESP_WRITE_SEQ;
        let ghost at = resp_off(c, client as int, (last + 1) as u64);
        let off: usize = self.client_at(client);
        let newest: u64 = self.mem.look_u64(off + CE_RESP_WRITE_SEQ);
        let ghost look = seq![reading::look(count, newest)];
        assert(self.mem.accesses() =~= first + look);
        if newest <= last || last == u64::MAX {
            proof {
                let none = Seq::<Access>::empty();
                assert(look + none =~= look);
                assert(newer_tried(at, last, newest, none, None));
                assert(ring_tried(count, at, last, look, None));
            }
            return None;
        }
        let seq: u64 = last + 1;
        let e: usize = self.response_entry(client, seq);
        let found: Option<(u32, u32)> = self.try_recv_from_ring(e, seq);
        proof {
            let rest = choose|rest: Accesses|
                self.mem.accesses() == first + look + rest && #[trigger] entry_tried(
                    e as int,
                    seq,
                    rest,
                    found,
                );
            assert(newer_tried(at, last, newest, rest, found));
            assert(ring_tried(count, at, last, look + rest, found));
            assert(self.mem.accesses() =~= first + (look + rest));
        }
        match found {
            Some((block, len)) => Some((block, len, seq)),
            None => None,
        }
    }

    /// A message was copied out of a block, and nothing else was done.
    pub open spec fn copied_last(&self, after: &Self, block: u32) -> bool {
        exists|found: Seq<u8>|
            after.mem.accesses() == self.mem.accesses().push(
                #[trigger] message_copied(self.config, block, found),
            )
    }

    fn read_message(&mut self, block: u32, len: u32) -> (r: Vec<u8>)
        requires
            old(self).wf(),
            block < old(self).config.block_count,
        ensures
            final(self).wf(),
            old(self).same_segment(final(self)),
            final(self).mem.accesses() == old(self).mem.accesses().push(
                message_copied(old(self).config, block, r@),
            ),
            old(self).mem.exclusive() ==> {
                &&& r@ == message_at(old(self).config, old(self).mem.image(), block, len)
                &&& final(self).mem.image() == old(self).mem.image()
            },
    {
        let capacity: u32 = self.config.block_size - BLOCK_DATA_OFFSET as u32;
        let n: u32 = if len < capacity {
            len
        } else {
            capacity
        };
        let at: usize = self.data_at(block);
        self.mem.copy(at, n as usize)
    }

    /// Writes what there is of the headers of a message that does not fit.
    fn write_refused(&mut self, block: u32, refusal: &Refusal)
        requires
            old(self).wf(),
            block < old(self).config.block_count,
            refusal.headers@.len() > 0 ==> refusal.at + refusal.headers@.len() <= capacity_of(
                old(self).config,
            ),
        ensures
            final(self).wf(),
            old(self).same_segment(final(self)),
            old(self).mem.exclusive() ==> final(self).mem.image() == if refusal.headers@.len()
                > 0 {
                memory::put(
                    old(self).mem.image(),
                    data_off(old(self).config, block as int) + refusal.at,
                    refusal.headers@,
                )
            } else {
                old(self).mem.image()
            },
    {
        if refusal.headers.len() > 0 {
            let at: usize = self.data_at(block);
            self.mem.write(at + refusal.at, refusal.headers.as_slice());
        }
    }

    /// Writes a request into a block, and gives its length. Of one that does not
    /// fit some headers may be written.
    pub fn encode_request(&mut self, block: u32, req: &Request, correlation: u32) -> (r: Result<
        u32,
        CrossbarError,
    >)
        requires
            old(self).wf(),
            block < old(self).config.block_count,
        ensures
            final(self).wf(),
            old(self).same_segment(final(self)),
            match rpc_message::message_fault(
                rpc_message::request_used(req@),
                req@.headers,
                capacity_of(old(self).config) as nat,
            ) {
                None => {
                    &&& r matches Ok(n) && n == rpc_message::request_message(
                        req@,
                        correlation,
                    ).len()
                    &&& final(self).mem.accesses() == old(self).mem.accesses().push(
                        request_written(old(self).config, block, req@, correlation),
                    )
                    &&& old(self).mem.exclusive() ==> final(self).mem.image() == memory::put(
                        old(self).mem.image(),
                        data_off(old(self).config, block as int),
                        rpc_message::request_message(req@, correlation),
                    )
                },
                Some(f) => {
                    &&& r matches Err(e) && e@ == f
                    &&& old(self).mem.exclusive() ==> final(self).mem.image() == after_refused(
                        old(self).config,
                        old(self).mem.image(),
                        block,
                        rpc_message::request_used(req@),
                        req@.headers,
                    )
                },
            },
    {
        let capacity: u32 = self.config.block_size - BLOCK_DATA_OFFSET as u32;
        match encode_request(req, correlation, capacity) {
            Ok(b) => {
                let at: usize = self.data_at(block);
                self.mem.write(at, b.as_slice());
                Ok(b.len() as u32)
            },
            Err(refusal) => {
                proof {
                    lemma_nothing_written(
                        self.mem.image(),
                        data_off(self.config, block as int) + rpc_message::request_used(req@),
                    );
                }
                self.write_refused(block, &refusal);
                Err(refusal.error)
            },
        }
    }

    /// Reads the request in a block, and its correlation number.
    pub fn decode_request(&mut self, block: u32, len: u32) -> (r: Result<(Request, u32), CrossbarError>)
        requires
            old(self).wf(),
        ensures
            final(self).wf(),
            old(self).same_segment(final(self)),
            r is Ok ==> old(self).copied_last(final(self), block),
            block >= old(self).config.block_count ==> *final(self) == *old(self),
            old(self).mem.exclusive() ==> final(self).mem.image() == old(self).mem.image(),
            r matches Ok(x) ==> x.0.wf() && x.0.path_params.pairs().len() == 0,
            r is Ok ==> block < old(self).config.block_count,
            old(self).mem.exclusive() ==> match request_at(
                old(self).config,
                old(self).mem.image(),
                block,
                len,
            ) {
                Ok((v, k)) => r matches Ok((req, c)) && req@ == v && c == k,
                Err(f) => r matches Err(e) && e@ == f,
            },
    {
        if block >= self.config.block_count {
            return Err(out_of_bounds(block, self.config.block_count));
        }
        let b: Vec<u8> = self.read_message(block, len);
        decode_request(b.as_slice())
    }

    /// Writes a response into a block, and gives its length. Of one that does not
    /// fit some headers may be written.
    pub fn encode_response(&mut self, block: u32, resp: &Response, correlation: u32) -> (r: Result<
        u32,
        CrossbarError,
    >)
        requires
            old(self).wf(),
            block < old(self).config.block_count,
        ensures
            final(self).wf(),
            old(self).same_segment(final(self)),
            match rpc_message::message_fault(
                rpc_message::response_used(resp@),
                resp@.headers,
                capacity_of(old(self).config) as nat,
            ) {
                None => {
                    &&& r matches Ok(n) && n == rpc_message::response_len(resp@)
                    &&& final(self).mem.accesses() == old(self).mem.accesses()
                        + response_written(old(self).config, block, resp@, correlation)
                    &&& old(self).mem.exclusive() ==> final(self).mem.image()
                        == with_response_message(
                        old(self).config,
                        old(self).mem.image(),
                        block,
                        resp@,
                        correlation,
                    )
                },
                Some(f) => {
                    &&& r matches Err(e) && e@ == f
                    &&& old(self).mem.exclusive() ==> final(self).mem.image() == after_refused(
                        old(self).config,
                        old(self).mem.image(),
                        block,
                        rpc_message::response_used(resp@),
                        resp@.headers,
                    )
                },
            },
    {
        let capacity: u32 = self.config.block_size - BLOCK_DATA_OFFSET as u32;
        match encode_response(resp, correlation, capacity) {
            Ok(b) => {
                let at: usize = self.data_at(block);
                let mut status: Vec<u8> = Vec::new();
                memory::push_u16(&mut status, resp.status);
                assert(status@ =~= memory::le16(resp.status));
                self.mem.write(at, status.as_slice());
                self.mem.write(at + 4, b.as_slice());
                assert(self.mem.accesses() =~= old(self).mem.accesses() + response_written(
                    self.config,
                    block,
                    resp@,
                    correlation,
                ));
                Ok(b.len() as u32 + 4)
            },
            Err(refusal) => {
                proof {
                    lemma_nothing_written(
                        self.mem.image(),
                        data_off(self.config, block as int) + rpc_message::response_used(resp@),
                    );
                }
                self.write_refused(block, &refusal);
                Err(refusal.error)
            },
        }
    }

    /// Reads the response in a block, and its correlation number.
    pub fn decode_response(&mut self, block: u32, len: u32) -> (r: Result<
        (Response, u32),
        CrossbarError,
    >)
        requires
            old(self).wf(),
        ensures
            final(self).wf(),
            old(self).same_segment(final(self)),
            r is Ok ==> old(self).copied_last(final(self), block),
            block >= old(self).config.block_count ==> *final(self) == *old(self),
            old(self).mem.exclusive() ==> final(self).mem.image() == old(self).mem.image(),
            r matches Ok(x) ==> x.0.headers.wf(),
            old(self).mem.exclusive() ==> match response_at(
                old(self).config,
                old(self).mem.image(),
                block,
                len,
            ) {
                Ok((v, k)) => r matches Ok((resp, c)) && resp@ == v && c == k,
                Err(f) => r matches Err(e) && e@ == f,
            },
    {
        if block >= self.config.block_count {
            return Err(out_of_bounds(block, self.config.block_count));
        }
        let b: Vec<u8> = self.read_message(block, len);
        decode_response(b.as_slice())
    }
}

/// Writing no bytes changes nothing.
proof fn lemma_nothing_written(m: Seq<u8>, off: int)
    ensures
        memory::put(m, off, Seq::empty()) == m,
{
    assert(memory::put(m, off, Seq::empty()) =~= m);
}

/// What a server knows of a client.
#[derive(Debug, Clone, Copy, PartialEq, Eq, Structural)]
pub struct ClientState {
    /// The client was connected when the server looked last.
    pub known_active: bool,
    /// Sequence number of the last request that the server took.
    pub last_req_seq: u64,
    /// Sequence number of the last response that the server sent.
    pub resp_seq: u64,
}

/// A client that the server does not know.
pub open spec fn unknown_client() -> ClientState {
    ClientState { known_active: false, last_req_seq: 0, resp_seq: 0 }
}

/// A client that has just connected.
pub open spec fn new_client() -> ClientState {
    ClientState { known_active: true, last_req_seq: 0, resp_seq: 0 }
}

impl ClientState {
    /// A client that the server does not know.
    pub fn new() -> (r: ClientState)
        ensures
            r == unknown_client(),
    {
        ClientState { known_active: false, last_req_seq: 0, resp_seq: 0 }
    }

    /// What the server knows once it has looked whether the client is
    /// connected: it starts over with a client that it did not know.
    pub open spec fn seen(self, active: u32) -> ClientState {
        if active == 0 {
            if self.known_active {
                unknown_client()
            } else {
                self
            }
        } else if !self.known_active {
            new_client()
        } else {
            self
        }
    }

    fn look(self, active: u32) -> (r: ClientState)
        ensures
            r == self.seen(active),
    {
        if active == 0 {
            if self.known_active {
                return ClientState::new();
            }
            return self;
        }
        if !self.known_active {
            return ClientState { known_active: true, last_req_seq: 0, resp_seq: 0 };
        }
        self
    }
}

/// What a server finds when it looks at a client.
#[derive(Debug)]
pub enum RpcWork {
    /// Nothing to do.
    Idle,
    /// A malformed request, which was answered. Says whether a thread of the
    /// client is to be woken.
    Refused(bool),
    /// A request to answer, with the block that it came in and its correlation
    /// number.
    Ready(Request, u32, u32),
}

/// The answer to a malformed request.
pub open spec fn malformed() -> types::ResponseView {
    types::plain_response(400, types::text_bytes("malformed request"@))
}

/// What is sent for a malformed request: the answer, or nothing where it does
/// not fit.
pub open spec fn sent_malformed(c: PubSubRpcConfig) -> Option<types::ResponseView> {
    if response_fits(c, malformed()) {
        Some(malformed())
    } else {
        None
    }
}

impl<M: SharedMemory> RpcRegion<M> {
    fn send_response(&mut self, client: u32, block: u32, len: u32, seq: u64) -> (r: bool)
        requires
            old(self).wf(),
            client < old(self).config.max_clients,
        ensures
            final(self).wf(),
            old(self).same_segment(final(self)),
            exists|was: u32|
                final(self).mem.accesses() == (old(self).mem.accesses() + response_stores(
                    old(self).config,
                    client as int,
                    block,
                    len,
                    seq,
                )).push(#[trigger] client_told(client as int, was)),
            old(self).mem.exclusive() ==> {
                let m = with_response(
                    old(self).config,
                    old(self).mem.image(),
                    client as int,
                    block,
                    len,
                    seq,
                );
                let w = client_off(client as int) + CE_RESP_NOTIFY;
                &&& final(self).mem.image() == memory::put32(
                    m,
                    w,
                    memory::wrapping_sum_u32(memory::u32_at(m, w), 1),
                )
                &&& r == (memory::u32_at(
                    final(self).mem.image(),
                    client_off(client as int) + CE_RESP_WAITERS,
                ) > 0)
            },
    {
        self.publish_response(client, block, len, seq);
        let off: usize = self.client_at(client);
        let before: u32 = self.mem.fetch_add_u32(off + CE_RESP_NOTIFY, 1);
        assert(self.mem.accesses().last() == client_told(client as int, before));
        self.mem.load_u32(off + CE_RESP_WAITERS) > 0
    }

    /// Looks at a client and takes its next request, if there is one. A
    /// malformed request is answered at once, in its own block.
    pub fn poll_client(&mut self, client: u32, state: &mut ClientState) -> (r: RpcWork)
        requires
            old(self).wf(),
            client < old(self).config.max_clients,
        ensures
            final(self).wf(),
            old(self).same_segment(final(self)),
            r matches RpcWork::Ready(req, block, _) ==> req.wf()
                && req.path_params.pairs().len() == 0 && block < old(self).config.block_count,
            old(self).mem.exclusive() ==> {
                let c = old(self).config;
                let m = old(self).mem.image();
                let s = old(state).seen(active(m, client as int));
                match (
                    active(m, client as int) != 0,
                    next_request(c, m, client as int, s.last_req_seq),
                ) {
                    (true, Some((block, len))) => {
                        let took = ClientState {
                            last_req_seq: (s.last_req_seq + 1) as u64,
                            ..s
                        };
                        match request_at(c, m, block, len) {
                            Ok((v, k)) => {
                                &&& r matches RpcWork::Ready(req, b, n) && req@ == v && b == block
                                    && n == k
                                &&& *final(state) == took
                                &&& final(self).mem.image() == m
                            },
                            Err(_) => {
                                let seq = memory::wrapping_sum_u64(s.resp_seq, 1);
                                let sent = if block < c.block_count {
                                    sent_malformed(c)
                                } else {
                                    None
                                };
                                &&& r matches RpcWork::Refused(wake) && wake == (sleepers(
                                    final(self).mem.image(),
                                    client as int,
                                ) > 0)
                                &&& *final(state) == (ClientState { resp_seq: seq, ..took })
                                &&& final(self).mem.image() == after_respond(
                                    c,
                                    m,
                                    client as int,
                                    block,
                                    sent,
                                    0,
                                    seq,
                                )
                            },
                        }
                    },
                    _ => {
                        &&& r is Idle
                        &&& *final(state) == s
                        &&& final(self).mem.image() == m
                    },
                }
            },
    {
        let is_active: u32 = self.client_active(client);
        *state = (*state).look(is_active);
        if is_active == 0 {
            return RpcWork::Idle;
        }
        let (block, len, seq): (u32, u32, u64) = match self.try_recv_request(
            client,
            state.last_req_seq,
        ) {
            Some(x) => x,
            None => {
                return RpcWork::Idle;
            },
        };
        state.last_req_seq = seq;
        match self.decode_request(block, len) {
            Ok((req, correlation)) => RpcWork::Ready(req, block, correlation),
            Err(_) => {
                let resp: Response = Response::bad_request("malformed request");
                let mut resp_len: u32 = 0;
                proof {
                    lemma_nothing_written(
                        self.mem.image(),
                        data_off(self.config, block as int) + rpc_message::response_used(resp@),
                    );
                }
                if block < self.config.block_count {
                    if let Ok(n) = self.encode_response(block, &resp, 0) {
                        resp_len = n;
                    }
                }
                state.resp_seq = state.resp_seq.wrapping_add(1);
                RpcWork::Refused(self.send_response(client, block, resp_len, state.resp_seq))
            },
        }
    }

    /// The last thing that was done is to send a response, or one without a message
    /// where there is none to send.
    pub open spec fn answered_last(
        &self,
        client: int,
        block: u32,
        sent: Option<types::ResponseView>,
        correlation: u32,
        seq: u64,
    ) -> bool {
        exists|was: u32|
            reading::ends_with(
                self.mem.accesses(),
                #[trigger] answers(self.config, client, block, sent, correlation, seq, was),
            )
    }

    /// Answers a request, in the block that it came in. Says whether a thread
    /// of the client is to be woken.
    pub fn respond(
        &mut self,
        client: u32,
        state: &mut ClientState,
        block: u32,
        correlation: u32,
        resp: &Response,
    ) -> (r: bool)
        requires
            old(self).wf(),
            client < old(self).config.max_clients,
            block < old(self).config.block_count,
        ensures
            final(self).wf(),
            old(self).same_segment(final(self)),
            *final(state) == (ClientState {
                resp_seq: memory::wrapping_sum_u64(old(state).resp_seq, 1),
                ..*old(state)
            }),
            final(self).answered_last(
                client as int,
                block,
                sent_response(old(self).config, resp@),
                correlation,
                final(state).resp_seq,
            ),
            old(self).mem.exclusive() ==> {
                let c = old(self).config;
                &&& final(self).mem.image() == after_respond(
                    c,
                    after_tried(c, old(self).mem.image(), block, resp@),
                    client as int,
                    block,
                    sent_response(c, resp@),
                    correlation,
                    final(state).resp_seq,
                )
                &&& r == (memory::u32_at(
                    final(self).mem.image(),
                    client_off(client as int) + CE_RESP_WAITERS,
                ) > 0)
            },
    {
        let ghost c = self.config;
        let ghost mut sent: Option<types::ResponseView> = Some(resp@);
        let ghost mut first = self.mem.accesses();
        let len: u32 = match self.encode_response(block, resp, correlation) {
            Ok(n) => n,
            Err(_) => {
                let failed: Response = Response::with_status(500);
                proof {
                    first = self.mem.accesses();
                    sent = Some(failed@);
                }
                proof {
                    lemma_nothing_written(
                        self.mem.image(),
                        data_off(self.config, block as int) + rpc_message::response_used(failed@),
                    );
                }
                match self.encode_response(block, &failed, correlation) {
                    Ok(n) => n,
                    Err(_) => {
                        proof {
                            first = self.mem.accesses();
                            sent = None;
                        }
                        0
                    },
                }
            },
        };
        assert(sent == sent_response(c, resp@));
        state.resp_seq = state.resp_seq.wrapping_add(1);
        let ghost written = self.mem.accesses();
        let wake: bool = self.send_response(client, block, len, state.resp_seq);
        proof {
            let was = choose|was: u32|
                self.mem.accesses() == (written + response_stores(
                    c,
                    client as int,
                    block,
                    len,
                    state.resp_seq,
                )).push(#[trigger] client_told(client as int, was));
            let ops = answers(c, client as int, block, sent, correlation, state.resp_seq, was);
            assert(self.mem.accesses() =~= first + ops);
            reading::lemma_ends_with(first, ops);
        }
        wake
    }
}

/// What one turn of a server does for a client: a request is answered as the
/// router may answer it, and a malformed one is refused.
pub open spec fn turn_is<H: Handler<T>, T>(
    c: PubSubRpcConfig,
    router: Router<H>,
    client: int,
    m: Seq<u8>,
    before: ClientState,
    n: Seq<u8>,
    after: ClientState,
) -> bool {
    let s = before.seen(active(m, client));
    let seq = memory::wrapping_sum_u64(s.resp_seq, 1);
    match pending(c, m, client, before) {
        None => n == m && after == s,
        Some((block, len)) => {
            &&& after == (ClientState {
                known_active: s.known_active,
                last_req_seq: (s.last_req_seq + 1) as u64,
                resp_seq: seq,
            })
            &&& match request_at(c, m, block, len) {
                Ok((v, k)) => exists|req: Request, resp: types::ResponseView, held: Option<u32>|
                    {
                        &&& is_received(req, v)
                        &&& #[trigger] client::may_answer::<H, T>(router, req, resp, held)
                        &&& n == after_respond(
                            c,
                            after_tried(c, m, block, resp),
                            client,
                            block,
                            sent_response(c, resp),
                            k,
                            seq,
                        )
                    },
                Err(_) => n == after_respond(
                    c,
                    m,
                    client,
                    block,
                    if block < c.block_count {
                        sent_malformed(c)
                    } else {
                        None
                    },
                    0,
                    seq,
                ),
            }
        },
    }
}

/// A request as it comes out of a message.
pub open spec fn is_received(req: Request, v: types::RequestView) -> bool {
    req.wf() && req.path_params.pairs().len() == 0 && req@ == v
}

/// The request that a server finds when it looks at a client.
pub open spec fn pending(c: PubSubRpcConfig, m: Seq<u8>, client: int, s: ClientState) -> Option<
    (u32, u32),
> {
    if active(m, client) == 0 {
        None
    } else {
        next_request(c, m, client, s.seen(active(m, client)).last_req_seq)
    }
}

/// The threads of a client that sleep.
pub open spec fn sleepers(m: Seq<u8>, client: int) -> u32 {
    memory::u32_at(m, client_off(client) + CE_RESP_WAITERS)
}

/// What a round of a server does: it takes a turn for each client, one after
/// the other. `ms` are the contents of the segment between the turns.
pub open spec fn round_is<H: Handler<T>, T>(
    c: PubSubRpcConfig,
    router: Router<H>,
    ms: Seq<Seq<u8>>,
    before: Seq<ClientState>,
    after: Seq<ClientState>,
    found: bool,
    wake: Seq<u32>,
    n: int,
) -> bool {
    &&& ms.len() == n + 1
    &&& forall|i: int|
        0 <= i < n ==> #[trigger] turn_is::<H, T>(
            c,
            router,
            i,
            ms[i],
            before[i],
            ms[i + 1],
            after[i],
        )
    &&& found <==> exists|i: int| 0 <= i < n && #[trigger] pending(c, ms[i], i, before[i]) is Some
    &&& forall|i: int|
        0 <= i < n ==> (#[trigger] wake.contains(i as u32) <==> pending(c, ms[i], i, before[i])
            is Some && sleepers(ms[i + 1], i) > 0)
    &&& forall|k: int| 0 <= k < wake.len() ==> #[trigger] wake[k] < n
}

/// What a round for all clients does, by way of some contents in between.
pub open spec fn served<H: Handler<T>, T>(
    c: PubSubRpcConfig,
    router: Router<H>,
    m: Seq<u8>,
    before: Seq<ClientState>,
    n: Seq<u8>,
    after: Seq<ClientState>,
    found: bool,
    wake: Seq<u32>,
) -> bool {
    exists|ms: Seq<Seq<u8>>|
        {
            &&& #[trigger] round_is::<H, T>(
                c,
                router,
                ms,
                before,
                after,
                found,
                wake,
                before.len() as int,
            )
            &&& ms[0] == m
            &&& ms.last() == n
        }
}

/// What a server does when it has found nothing to do.
#[derive(Debug, Clone, Copy, PartialEq, Eq, Structural)]
pub enum ServerStep {
    /// Take another round.
    Serve,
    /// Spin for a moment, and look again.
    Spin,
    /// Sleep while the word of the server has this value, then call
    /// `work_wait_done`, and take another round.
    Sleep(u32),
}

impl<M: SharedMemory> RpcRegion<M> {
    /// Takes a turn for one client: says whether there was a request, and
    /// whether a thread of the client is to be woken.
    pub fn serve_client<H, T>(
        &mut self,
        router: &Router<H>,
        client: u32,
        state: &mut ClientState,
    ) -> (r: (bool, bool)) where H: Handler<T>
        requires
            old(self).wf(),
            client < old(self).config.max_clients,
            router.wf(),
            forall|req: Request|
                req.wf() && req.path_params.pairs().len() == 0 ==> #[trigger] client::takes::<
                    H,
                    T,
                >(*router, req),
        ensures
            final(self).wf(),
            old(self).same_segment(final(self)),
            old(self).mem.exclusive() ==> {
                let m = old(self).mem.image();
                &&& turn_is::<H, T>(
                    old(self).config,
                    *router,
                    client as int,
                    m,
                    *old(state),
                    final(self).mem.image(),
                    *final(state),
                )
                &&& r.0 == (pending(old(self).config, m, client as int, *old(state)) is Some)
                &&& r.1 == (r.0 && sleepers(final(self).mem.image(), client as int) > 0)
            },
    {
        match self.poll_client(client, state) {
            RpcWork::Idle => (false, false),
            RpcWork::Refused(wake) => (true, wake),
            RpcWork::Ready(req, block, correlation) => {
                let ghost asked = req;
                assert(client::takes::<H, T>(*router, req));
                let resp: Response = router.dispatch(req);
                assert(client::may_answer::<H, T>(*router, asked, resp@, resp.body.held()));
                (true, self.respond(client, state, block, correlation, &resp))
            },
        }
    }

    /// Takes a turn for each client: says whether there was a request, and
    /// which clients are to be woken.
    pub fn serve_round<H, T>(
        &mut self,
        router: &Router<H>,
        clients: &mut Vec<ClientState>,
    ) -> (r: (bool, Vec<u32>)) where H: Handler<T>
        requires
            old(self).wf(),
            old(clients)@.len() == old(self).config.max_clients,
            router.wf(),
            forall|req: Request|
                req.wf() && req.path_params.pairs().len() == 0 ==> #[trigger] client::takes::<
                    H,
                    T,
                >(*router, req),
        ensures
            final(self).wf(),
            old(self).same_segment(final(self)),
            final(clients)@.len() == old(clients)@.len(),
            old(self).mem.exclusive() ==> served::<H, T>(
                old(self).config,
                *router,
                old(self).mem.image(),
                old(clients)@,
                final(self).mem.image(),
                final(clients)@,
                r.0,
                r.1@,
            ),
    {
        let mut found: bool = false;
        let mut wake: Vec<u32> = Vec::new();
        let count: u32 = self.config.max_clients;
        let mut i: u32 = 0;
        let ghost mut ms: Seq<Seq<u8>> = seq![self.mem.image()];
        while i < count
            invariant
                i <= count,
                count == self.config.max_clients,
                self.wf(),
                old(self).same_segment(self),
                clients@.len() == count,
                old(clients)@.len() == count,
                forall|j: int| i <= j < count ==> #[trigger] clients@[j] == old(clients)@[j],
                router.wf(),
                forall|req: Request|
                    req.wf() && req.path_params.pairs().len() == 0 ==> #[trigger] client::takes::<
                        H,
                        T,
                    >(*router, req),
                ms.len() == i + 1,
                ms[0] == old(self).mem.image(),
                self.mem.exclusive() ==> {
                    &&& ms.last() == self.mem.image()
                    &&& round_is::<H, T>(
                        self.config,
                        *router,
                        ms,
                        old(clients)@,
                        clients@,
                        found,
                        wake@,
                        i as int,
                    )
                },
            decreases count - i,
        {
            let mut state: ClientState = clients[i as usize];
            let ghost held = *self;
            let ghost passed = clients@;
            let ghost woken = wake@;
            let ghost had = found;
            let (served, sleeping): (bool, bool) = self.serve_client(router, i, &mut state);
            clients.set(i as usize, state);
            if served {
                found = true;
            }
            if sleeping {
                wake.push(i);
            }
            proof {
                let next = ms.push(self.mem.image());
                if self.mem.exclusive() {
                    lemma_round::<H, T>(
                        self.config,
                        *router,
                        ms,
                        old(clients)@,
                        passed,
                        had,
                        woken,
                        i as int,
                        self.mem.image(),
                        state,
                        served,
                        sleeping,
                    );
                    assert(wake@ =~= if sleeping {
                        woken.push(i)
                    } else {
                        woken
                    });
                }
                ms = next;
            }
            i = i + 1;
        }
        proof {
            if self.mem.exclusive() {
                assert(round_is::<H, T>(
                    self.config,
                    *router,
                    ms,
                    old(clients)@,
                    clients@,
                    found,
                    wake@,
                    count as int,
                ));
                assert(served::<H, T>(
                    self.config,
                    *router,
                    old(self).mem.image(),
                    old(clients)@,
                    self.mem.image(),
                    clients@,
                    found,
                    wake@,
                ));
            }
        }
        (found, wake)
    }

    /// Whether a client that the server knows has sent a request that it has
    /// not taken.
    pub fn work_ready(&self, clients: &Vec<ClientState>) -> (r: bool)
        requires
            self.wf(),
            clients@.len() == self.config.max_clients,
        ensures
            self.mem.exclusive() ==> (r <==> exists|i: int|
                0 <= i < clients@.len() && (#[trigger] clients@[i]).known_active && req_seq(
                    self.mem.image(),
                    i,
                ) > clients@[i].last_req_seq),
    {
        let count: u32 = self.config.max_clients;
        let mut i: u32 = 0;
        while i < count
            invariant
                i <= count,
                count == self.config.max_clients,
                self.wf(),
                clients@.len() == count,
                self.mem.exclusive() ==> forall|j: int|
                    0 <= j < i ==> !((#[trigger] clients@[j]).known_active && req_seq(
                        self.mem.image(),
                        j,
                    ) > clients@[j].last_req_seq),
            decreases count - i,
        {
            let state: ClientState = clients[i as usize];
            if state.known_active && self.has_request(i, state.last_req_seq) {
                return true;
            }
            i = i + 1;
        }
        false
    }

    /// What a server does after a round without work: it looks for requests
    /// while it spins for `turn` turns, and then sleeps.
    pub fn idle_step(&mut self, clients: &Vec<ClientState>, turn: u32) -> (r: ServerStep)
        requires
            old(self).wf(),
            clients@.len() == old(self).config.max_clients,
        ensures
            final(self).wf(),
            old(self).same_segment(final(self)),
            turn < SERVER_SPIN_ITERS ==> r !is Sleep && final(self).mem == old(self).mem,
            turn >= SERVER_SPIN_ITERS ==> r !is Spin,
            old(self).mem.exclusive() ==> {
                let m = old(self).mem.image();
                if turn < SERVER_SPIN_ITERS {
                    r is Serve <==> exists|i: int|
                        0 <= i < clients@.len() && (#[trigger] clients@[i]).known_active && req_seq(
                            m,
                            i,
                        ) > clients@[i].last_req_seq
                } else {
                    &&& r == ServerStep::Sleep(memory::u32_at(m, GH_SERVER_NOTIFY as int))
                    &&& final(self).mem.image() == memory::put32(
                        m,
                        GH_SERVER_WAITERS as int,
                        memory::wrapping_sum_u32(
                            memory::u32_at(m, GH_SERVER_WAITERS as int),
                            1,
                        ),
                    )
                }
            },
    {
        if turn < SERVER_SPIN_ITERS {
            if self.work_ready(clients) {
                return ServerStep::Serve;
            }
            return ServerStep::Spin;
        }
        match self.wait_for_work() {
            Some(word) => ServerStep::Sleep(word),
            None => ServerStep::Serve,
        }
    }
}

/// A turn for one more client makes a longer round.
#[verifier::rlimit(40)]
proof fn lemma_round<H: Handler<T>, T>(
    c: PubSubRpcConfig,
    router: Router<H>,
    ms: Seq<Seq<u8>>,
    before: Seq<ClientState>,
    after: Seq<ClientState>,
    found: bool,
    wake: Seq<u32>,
    n: int,
    m: Seq<u8>,
    state: ClientState,
    served: bool,
    sleeping: bool,
)
    requires
        round_is::<H, T>(c, router, ms, before, after, found, wake, n),
        0 <= n < before.len() <= u32::MAX,
        after.len() == before.len(),
        turn_is::<H, T>(c, router, n, ms.last(), before[n], m, state),
        served == (pending(c, ms.last(), n, before[n]) is Some),
        sleeping == (served && sleepers(m, n) > 0),
    ensures
        round_is::<H, T>(
            c,
            router,
            ms.push(m),
            before,
            after.update(n, state),
            found || served,
            if sleeping {
                wake.push(n as u32)
            } else {
                wake
            },
            n + 1,
        ),
{
    let next = ms.push(m);
    let woken = if sleeping {
        wake.push(n as u32)
    } else {
        wake
    };
    assert forall|i: int| 0 <= i < n + 1 implies #[trigger] turn_is::<H, T>(
        c,
        router,
        i,
        next[i],
        before[i],
        next[i + 1],
        after.update(n, state)[i],
    ) by {
        if i < n {
            assert(turn_is::<H, T>(c, router, i, ms[i], before[i], ms[i + 1], after[i]));
        }
    }
    if found {
        let i = choose|i: int|
            0 <= i < n && #[trigger] pending(c, ms[i], i, before[i]) is Some;
        assert(pending(c, next[i], i, before[i]) is Some);
    }
    if served {
        assert(pending(c, next[n], n, before[n]) is Some);
    }
    if !found && !served {
        assert forall|i: int| 0 <= i < n + 1 implies #[trigger] pending(
            c,
            next[i],
            i,
            before[i],
        ) is None by {
            if i < n {
                assert(pending(c, ms[i], i, before[i]) is None);
            }
        }
    }
    assert forall|i: int| 0 <= i < n + 1 implies (#[trigger] woken.contains(i as u32)
        <==> pending(c, next[i], i, before[i]) is Some && sleepers(next[i + 1], i) > 0) by {
        if i < n {
            assert(wake.contains(i as u32) <==> pending(c, ms[i], i, before[i]) is Some
                && sleepers(ms[i + 1], i) > 0);
            if wake.contains(i as u32) {
                let k = choose|k: int| 0 <= k < wake.len() && wake[k] == i as u32;
                assert(woken[k] == i as u32);
            }
            if woken.contains(i as u32) {
                let k = choose|k: int| 0 <= k < woken.len() && woken[k] == i as u32;
                assert(k < wake.len());
                assert(wake[k] == i as u32);
            }
        } else {
            if sleeping {
                assert(woken[wake.len() as int] == n as u32);
            }
            if woken.contains(n as u32) {
                let k = choose|k: int| 0 <= k < woken.len() && woken[k] == n as u32;
                if k < wake.len() {
                    assert(wake[k] < n);
                }
            }
        }
    }
}

/// The first client entry that is free, from `client` on.
pub open spec fn free_client(c: PubSubRpcConfig, m: Seq<u8>, client: int) -> Option<u32>
    decreases c.max_clients - client,
{
    if client < 0 || client >= c.max_clients {
        None
    } else if active(m, client) == 0 {
        Some(client as u32)
    } else {
        free_client(c, m, client + 1)
    }
}

/// The segment after a client took an entry.
pub open spec fn with_client(m: Seq<u8>, client: int, pid: u32, id: u64) -> Seq<u8> {
    let o = client_off(client);
    let m = memory::put32(m, o + CE_ACTIVE, 1);
    let m = memory::put64(m, o + CE_REQ_WRITE_SEQ, 0);
    let m = memory::put64(m, o + CE_RESP_WRITE_SEQ, 0);
    let m = memory::put32(m, o + CE_CLIENT_PID, pid);
    memory::put64(m, o + CE_CLIENT_ID, id)
}

/// How a turn of a client that waits for a response ends.
#[derive(Debug)]
pub enum RpcTurn {
    /// The request is answered, or the server is dead.
    Done(Result<Response, CrossbarError>),
    /// Spin for a moment, and take another turn.
    Spin,
    /// Let other threads run, and take another turn.
    Yield,
    /// Sleep for a moment while the word of the response has this value, then
    /// call `end_sleep`, and take another turn.
    Sleep(u32),
}

/// A client that waits for a response.
#[derive(Debug, Clone, Copy, PartialEq, Eq, Structural)]
pub struct RpcWait {
    /// Turns so far, as far as they matter.
    pub turn: u32,
    /// When to give up, once the client begins to sleep.
    pub deadline: Option<u64>,
}

impl RpcWait {
    /// Begins to wait.
    pub fn new() -> (r: RpcWait)
        ensures
            r == (RpcWait { turn: 0, deadline: None }),
    {
        RpcWait { turn: 0, deadline: None }
    }

    /// The client sleeps between its looks.
    pub open spec fn sleeps(self) -> bool {
        self.turn >= SPIN_ITERS + YIELD_ITERS
    }

    /// When a client that takes its turn now gives up.
    pub open spec fn limit(self, now: u64, timeout: u64) -> u64 {
        match self.deadline {
            Some(d) => d,
            None => if now + timeout > u64::MAX {
                u64::MAX
            } else {
                (now + timeout) as u64
            },
        }
    }
}

/// Counting sleeping threads of a client changes nothing of its responses.
proof fn lemma_waiters_apart(c: PubSubRpcConfig, m: Seq<u8>, client: int, last: u64)
    requires
        sound(c),
        region_size(c) <= m.len(),
        0 <= client < c.max_clients,
    ensures
        forall|v: u32|
            next_response(
                c,
                #[trigger] memory::put32(m, client_off(client) + CE_RESP_WAITERS, v),
                client,
                last,
            ) == next_response(c, m, client, last),
{
    lemma_client(c, client);
    lemma_rings(c, client, (last + 1) as u64);
}

/// What connecting does: the segment of a live server gives the first free
/// client entry.
pub open spec fn connected<M: SharedMemory>(
    mem: M,
    now: u64,
    pid: u32,
    client_id: u64,
    r: Result<PubSubRpcClient<M>, CrossbarError>,
) -> bool {
    let m = mem.image();
    let c = header_config(m);
    if header_fault(m) is Some {
        r matches Err(e) && e@ == header_fault(m)->0
    } else if now - memory::u64_at(m, GH_HEARTBEAT as int) > c.stale_timeout_us {
        r matches Err(e) && e@ == error::CrossbarErrorView::ShmServerDead
    } else {
        match free_client(c, m, 0) {
            Some(i) => {
                &&& r matches Ok(s)
                &&& s.client_idx == i
                &&& s.region.config == c
                &&& s.region.mem.image() == with_client(m, i as int, pid, client_id)
                &&& s.region.mem.exclusive()
            },
            None => r matches Err(e) && e@ == error::CrossbarErrorView::ShmSlotsFull,
        }
    }
}

/// A client of a server.
pub struct PubSubRpcClient<M: SharedMemory> {
    /// The segment.
    pub region: RpcRegion<M>,
    /// The entry of this client.
    pub client_idx: u32,
    /// Microseconds to wait for a response.
    pub stale_timeout_us: u64,
    /// Sequence number of the last request.
    pub next_req_seq: u64,
    /// Sequence number of the last response.
    pub last_resp_seq: u64,
    /// The next correlation number.
    pub next_correlation: u32,
    /// Number of requests, going around.
    pub request_count: u32,
}

/// A thread of a client counts as sleeping.
pub open spec fn sleeper_in(client: int, was: u32) -> Access {
    Access::Add32 { off: client_off(client) + CE_RESP_WAITERS, v: 1, was }
}

/// A look for a response that found none, between two moments of a client.
spec fn looked_in_vain<M: SharedMemory>(
    before: PubSubRpcClient<M>,
    after: PubSubRpcClient<M>,
) -> bool {
    exists|ops: Accesses|
        {
            &&& after.region.mem.accesses() == before.region.mem.accesses() + ops
            &&& #[trigger] before.found_none(ops)
        }
}

/// Seeing the word, looking, being counted, and looking once more, in this order, is
/// falling asleep.
proof fn lemma_fell_asleep<M: SharedMemory>(
    first: Accesses,
    watched: PubSubRpcClient<M>,
    tried: PubSubRpcClient<M>,
    counted: PubSubRpcClient<M>,
    asleep: PubSubRpcClient<M>,
    word: u32,
)
    requires
        watched.region.mem.accesses() == first.push(
            (Access::Look32 {
                off: client_off(watched.client_idx as int) + CE_RESP_NOTIFY,
                found: word,
            }),
        ),
        looked_in_vain(watched, tried),
        looked_in_vain(counted, asleep),
        watched.same_client(&tried),
        tried.same_client(&counted),
        counted.same_client(&asleep),
        watched.last_resp_seq == tried.last_resp_seq == counted.last_resp_seq,
        counted.last_resp_seq == asleep.last_resp_seq,
        exists|was: u32|
            counted.region.mem.accesses() == tried.region.mem.accesses().push(
                #[trigger] sleeper_in(tried.client_idx as int, was),
            ),
    ensures
        asleep.fell_asleep(word),
{
    let was = choose|was: u32|
        counted.region.mem.accesses() == tried.region.mem.accesses().push(
            #[trigger] sleeper_in(tried.client_idx as int, was),
        );
    let a = choose|ops: Accesses|
        tried.region.mem.accesses() == watched.region.mem.accesses() + ops
            && #[trigger] watched.found_none(ops);
    let b = choose|ops: Accesses|
        asleep.region.mem.accesses() == counted.region.mem.accesses() + ops
            && #[trigger] counted.found_none(ops);
    let all = sleep_looks(asleep.client_idx as int, word, a, was, b);
    assert(asleep.region.mem.accesses() =~= first + all);
    reading::lemma_ends_with(first, all);
    assert(asleep.found_none(a));
    assert(asleep.found_none(b));
}

impl<M: SharedMemory> PubSubRpcClient<M> {
    /// The segment has room for its parts, and the entry exists.
    pub open spec fn fits(&self) -> bool {
        self.region.fits() && self.client_idx < self.region.config.max_clients
    }

    /// The segment is sound, and the entry exists.
    pub open spec fn wf(&self) -> bool {
        self.region.wf() && self.client_idx < self.region.config.max_clients
    }

    /// Connects to the segment of a live server, and waits at most five seconds
    /// for a response.
    pub fn connect(mem: M, now: u64, pid: u32, client_id: u64) -> (r: Result<
        PubSubRpcClient<M>,
        CrossbarError,
    >)
        ensures
            r matches Ok(s) ==> s.fits() && s.is_new(DEFAULT_STALE_TIMEOUT_US),
            mem.exclusive() ==> connected(mem, now, pid, client_id, r),
    {
        PubSubRpcClient::connect_with_timeout(mem, DEFAULT_STALE_TIMEOUT_US, now, pid, client_id)
    }

    /// Nothing was sent and received yet.
    pub open spec fn is_new(&self, stale_timeout_us: u64) -> bool {
        &&& self.stale_timeout_us == stale_timeout_us
        &&& self.next_req_seq == 0
        &&& self.last_resp_seq == 0
        &&& self.next_correlation == 0
        &&& self.request_count == 0
    }

    /// Connects to the segment of a live server, and takes the first free
    /// client entry.
    pub fn connect_with_timeout(
        mem: M,
        stale_timeout_us: u64,
        now: u64,
        pid: u32,
        client_id: u64,
    ) -> (r: Result<PubSubRpcClient<M>, CrossbarError>)
        ensures
            r matches Ok(s) ==> s.fits() && s.is_new(stale_timeout_us),
            r matches Ok(s) ==> s.joined_last(pid, client_id),
            mem.exclusive() ==> connected(mem, now, pid, client_id, r),
    {
        let mut region: RpcRegion<M> = match RpcRegion::open(mem) {
            Ok(s) => s,
            Err(e) => {
                return Err(e);
            },
        };
        if let Err(e) = region.check_heartbeat(now) {
            return Err(e);
        }
        let mut i: u32 = 0;
        while i < region.config.max_clients
            invariant
                i <= region.config.max_clients,
                region.fits(),
                region.mem.exclusive() == mem.exclusive(),
                mem.exclusive() ==> {
                    &&& region.mem.image() == mem.image()
                    &&& region.config == header_config(mem.image())
                    &&& header_fault(mem.image()) is None
                    &&& now - memory::u64_at(mem.image(), GH_HEARTBEAT as int)
                        <= region.config.stale_timeout_us
                    &&& free_client(region.config, mem.image(), 0) == free_client(
                        region.config,
                        mem.image(),
                        i as int,
                    )
                },
            decreases region.config.max_clients - i,
        {
            let off: usize = region.client_at(i);
            let ghost first = region.mem.accesses();
            if region.mem.compare_exchange_u32(off + CE_ACTIVE, 0, 1).is_ok() {
                region.mem.store_u64(off + CE_REQ_WRITE_SEQ, 0);
                region.mem.store_u64(off + CE_RESP_WRITE_SEQ, 0);
                region.mem.store_u32(off + CE_CLIENT_PID, pid);
                region.mem.store_u64(off + CE_CLIENT_ID, client_id);
                let s: PubSubRpcClient<M> = PubSubRpcClient {
                    region,
                    client_idx: i,
                    stale_timeout_us,
                    next_req_seq: 0,
                    last_resp_seq: 0,
                    next_correlation: 0,
                    request_count: 0,
                };
                proof {
                    let ops = client_stores(i as int, pid, client_id);
                    assert(s.region.mem.accesses() =~= first + ops);
                    reading::lemma_ends_with(first, ops);
                }
                return Ok(s);
            }
            i = i + 1;
        }
        Err(CrossbarError::ShmSlotsFull)
    }

    /// The last thing that was done is to take the entry of the client.
    pub open spec fn joined_last(&self, pid: u32, client_id: u64) -> bool {
        reading::ends_with(
            self.region.mem.accesses(),
            client_stores(self.client_idx as int, pid, client_id),
        )
    }

    /// One request in 1024 checks that the server is alive.
    pub open spec fn check_due(&self) -> bool {
        memory::wrapping_sum_u32(self.request_count, 1) % 1024 == 0
    }

    /// The last thing that was done is to send a request.
    pub open spec fn sent_last(&self, v: types::RequestView, correlation: u32, wake: bool) -> bool {
        exists|block: u32, told: Accesses|
            {
                &&& block < self.region.config.block_count
                &&& #[trigger] tells_server(told, wake)
                &&& reading::ends_with(
                    self.region.mem.accesses(),
                    #[trigger] sends(
                        self.region.config,
                        self.client_idx as int,
                        block,
                        v,
                        correlation,
                        self.next_req_seq,
                        told,
                    ),
                )
            }
    }

    /// Sends a request. Says whether the server is to be woken. Fails where the
    /// server is found dead, no block is free, or the request does not fit;
    /// then nothing is sent, and a block that was taken goes back.
    pub fn send(&mut self, req: &Request, now: u64) -> (r: Result<bool, CrossbarError>)
        requires
            old(self).wf(),
        ensures
            final(self).wf(),
            old(self).region.same_segment(&final(self).region),
            final(self).client_idx == old(self).client_idx,
            final(self).stale_timeout_us == old(self).stale_timeout_us,
            final(self).last_resp_seq == old(self).last_resp_seq,
            final(self).request_count == memory::wrapping_sum_u32(old(self).request_count, 1),
            r matches Ok(wake) ==> final(self).sent_last(req@, old(self).next_correlation, wake),
            old(self).region.mem.exclusive() ==> {
                let c = old(self).region.config;
                let m = old(self).region.mem.image();
                let p = pool_of(c);
                let dead = old(self).check_due() && now - memory::u64_at(m, GH_HEARTBEAT as int)
                    > c.stale_timeout_us;
                let fault = rpc_message::message_fault(
                    rpc_message::request_used(req@),
                    req@.headers,
                    capacity_of(c) as nat,
                );
                let used = p.after_alloc(m);
                if dead {
                    &&& r matches Err(e) && e@ == error::CrossbarErrorView::ShmServerDead
                    &&& final(self).region.mem.image() == m
                    &&& final(self).next_req_seq == old(self).next_req_seq
                    &&& final(self).next_correlation == old(self).next_correlation
                } else if p.alloc_choice(m) is None {
                    &&& r matches Err(e) && e@ == error::CrossbarErrorView::ShmPoolExhausted
                    &&& final(self).region.mem.image() == m
                    &&& final(self).next_req_seq == old(self).next_req_seq
                    &&& final(self).next_correlation == old(self).next_correlation
                } else if fault is Some {
                    &&& r matches Err(e) && e@ == fault->0
                    &&& final(self).region.mem.image() == p.after_free(
                        after_refused(
                            c,
                            used,
                            p.alloc_choice(m)->0,
                            rpc_message::request_used(req@),
                            req@.headers,
                        ),
                        p.alloc_choice(m)->0,
                    )
                    &&& final(self).next_req_seq == old(self).next_req_seq
                    &&& final(self).next_correlation == memory::wrapping_sum_u32(
                        old(self).next_correlation,
                        1,
                    )
                } else {
                    let block = p.alloc_choice(m)->0;
                    let message = rpc_message::request_message(
                        req@,
                        old(self).next_correlation,
                    );
                    let seq = memory::wrapping_sum_u64(old(self).next_req_seq, 1);
                    let sent = with_request(
                        c,
                        memory::put(used, data_off(c, block as int), message),
                        old(self).client_idx as int,
                        block,
                        message.len() as u32,
                        seq,
                    );
                    let wake = memory::u32_at(sent, GH_SERVER_WAITERS as int) > 0;
                    &&& r == Ok::<bool, CrossbarError>(wake)
                    &&& final(self).next_req_seq == seq
                    &&& final(self).next_correlation == memory::wrapping_sum_u32(
                        old(self).next_correlation,
                        1,
                    )
                    &&& final(self).region.mem.image() == if wake {
                        memory::put32(
                            sent,
                            GH_SERVER_NOTIFY as int,
                            memory::wrapping_sum_u32(
                                memory::u32_at(sent, GH_SERVER_NOTIFY as int),
                                1,
                            ),
                        )
                    } else {
                        sent
                    }
                }
            },
    {
        self.request_count = self.request_count.wrapping_add(1);
        if self.request_count % 1024 == 0 {
            if let Err(e) = self.region.check_heartbeat(now) {
                return Err(e);
            }
        }
        let block: u32 = match self.region.alloc_block() {
            Some(b) => b,
            None => {
                return Err(CrossbarError::ShmPoolExhausted);
            },
        };
        let correlation: u32 = self.next_correlation;
        self.next_correlation = correlation.wrapping_add(1);
        let ghost first = self.region.mem.accesses();
        let len: u32 = match self.region.encode_request(block, req, correlation) {
            Ok(n) => n,
            Err(e) => {
                self.region.free_block(block);
                return Err(e);
            },
        };
        self.next_req_seq = self.next_req_seq.wrapping_add(1);
        self.region.publish_request(self.client_idx, block, len, self.next_req_seq);
        let ghost named = self.region.mem.accesses();
        let wake: bool = self.region.notify_server();
        proof {
            let told = choose|told: Accesses|
                self.region.mem.accesses() == named + told && #[trigger] tells_server(told, wake);
            let ops = sends(
                self.region.config,
                self.client_idx as int,
                block,
                req@,
                correlation,
                self.next_req_seq,
                told,
            );
            assert(self.region.mem.accesses() =~= first + ops);
            reading::lemma_ends_with(first, ops);
        }
        Ok(wake)
    }

    /// What looking for a response does: the next one is taken and its block
    /// given back; a malformed one is taken, and its block is not.
    pub open spec fn looked(
        &self,
        after: &Self,
        r: Result<Option<Response>, CrossbarError>,
    ) -> bool {
        let c = self.region.config;
        let m = self.region.mem.image();
        match next_response(c, m, self.client_idx as int, self.last_resp_seq) {
            None => {
                &&& r matches Ok(o) && o is None
                &&& after.last_resp_seq == self.last_resp_seq
                &&& after.region.mem.image() == m
            },
            Some((block, len)) => {
                &&& after.last_resp_seq == self.last_resp_seq + 1
                &&& match response_at(c, m, block, len) {
                    Ok((v, _)) => {
                        &&& r matches Ok(Some(resp)) && resp@ == v
                        &&& after.region.mem.image() == pool_of(c).after_free(m, block)
                    },
                    Err(f) => {
                        &&& r matches Err(e) && e@ == f
                        &&& after.region.mem.image() == m
                    },
                }
            },
        }
    }

    /// `other` is the same client at a later moment, that has sent nothing in
    /// between.
    pub open spec fn same_client(&self, other: &Self) -> bool {
        &&& self.region.same_segment(&other.region)
        &&& other.client_idx == self.client_idx
        &&& other.stale_timeout_us == self.stale_timeout_us
        &&& other.next_req_seq == self.next_req_seq
        &&& other.next_correlation == self.next_correlation
        &&& other.request_count == self.request_count
    }

    /// The last thing that was done is to take a response: its ring entry was looked
    /// at twice, the message was copied, and only then its block went back.
    pub open spec fn took_response_last(&self) -> bool {
        let c = self.region.config;
        let e = resp_off(c, self.client_idx as int, self.last_resp_seq);
        exists|look: EntryLook, found: Seq<u8>, given: Accesses|
            {
                &&& look.before == self.last_resp_seq
                &&& look.after == self.last_resp_seq
                &&& reading::ends_with(
                    self.region.mem.accesses(),
                    #[trigger] response_taken(c, e, look, found, given),
                )
                &&& pool_of(c).gives(given, look.block)
            }
    }

    /// A look for the next response that found none.
    pub open spec fn found_none(&self, ops: Accesses) -> bool {
        ring_tried(
            client_off(self.client_idx as int) + CE_RESP_WRITE_SEQ,
            resp_off(
                self.region.config,
                self.client_idx as int,
                (self.last_resp_seq + 1) as u64,
            ),
            self.last_resp_seq,
            ops,
            None,
        )
    }

    /// A client is about to sleep: it saw the word that it will watch, looked for a
    /// response, counts as sleeping, and looked once more. So a response that came
    /// since has changed the word, and the server that sent it finds the client
    /// counted.
    pub open spec fn fell_asleep(&self, word: u32) -> bool {
        exists|a: Accesses, b: Accesses, was: u32|
            {
                &&& reading::ends_with(
                    self.region.mem.accesses(),
                    #[trigger] sleep_looks(self.client_idx as int, word, a, was, b),
                )
                &&& self.found_none(a)
                &&& self.found_none(b)
            }
    }

    /// Looks for the next response.
    pub fn try_recv_response(&mut self) -> (r: Result<Option<Response>, CrossbarError>)
        requires
            old(self).wf(),
        ensures
            final(self).wf(),
            old(self).same_client(final(self)),
            r matches Ok(Some(_)) ==> final(self).took_response_last(),
            r matches Ok(None) ==> {
                &&& final(self).last_resp_seq == old(self).last_resp_seq
                &&& exists|ops: Accesses|
                    {
                        &&& final(self).region.mem.accesses() == old(self).region.mem.accesses()
                            + ops
                        &&& #[trigger] old(self).found_none(ops)
                    }
            },
            old(self).region.mem.exclusive() ==> old(self).looked(final(self), r),
    {
        let ghost first = self.region.mem.accesses();
        let found: Option<(u32, u32, u64)> = self.region.try_recv_response(
            self.client_idx,
            self.last_resp_seq,
        );
        proof {
            if found is None {
                let ops = choose|ops: Accesses|
                    self.region.mem.accesses() == first + ops && #[trigger] ring_tried(
                        client_off(self.client_idx as int) + CE_RESP_WRITE_SEQ,
                        resp_off(
                            self.region.config,
                            self.client_idx as int,
                            (self.last_resp_seq + 1) as u64,
                        ),
                        self.last_resp_seq,
                        ops,
                        None,
                    );
                assert(old(self).found_none(ops));
            }
        }
        match found {
            Some((block, len, seq)) => {
                self.last_resp_seq = seq;
                let ghost named = self.region;
                match self.region.decode_response(block, len) {
                    Ok((resp, correlation)) => {
                        let ghost copied = self.region.mem.accesses();
                        self.region.free_block(block);
                        proof {
                            let c = self.region.config;
                            let e = resp_off(c, self.client_idx as int, seq);
                            let found = choose|found: Seq<u8>|
                                copied == named.mem.accesses().push(
                                    #[trigger] message_copied(c, block, found),
                                );
                            let given = choose|ops: Accesses|
                                self.region.mem.accesses() == copied + ops
                                    && #[trigger] pool_of(c).gives(ops, block);
                            let look = EntryLook { before: seq, block, len, after: seq };
                            lemma_took(
                                named.mem.accesses(),
                                rings::entry_looks(e, look),
                                seq![message_copied(c, block, found)] + given,
                            );
                            assert(self.region.mem.accesses() =~= named.mem.accesses() + (seq![
                                message_copied(c, block, found),
                            ] + given));
                            assert(rings::entry_looks(e, look) + (seq![
                                message_copied(c, block, found),
                            ] + given) =~= response_taken(c, e, look, found, given));
                            assert(reading::ends_with(
                                self.region.mem.accesses(),
                                response_taken(c, e, look, found, given),
                            ));
                            assert(pool_of(c).gives(given, look.block));
                            assert(self.last_resp_seq == seq);
                            assert(self.region.config == c);
                            assert(look.before == seq && look.after == seq);
                            assert(self.took_response_last());
                        }
                        Ok(Some(resp))
                    },
                    Err(e) => Err(e),
                }
            },
            None => Ok(None),
        }
    }

    /// The word that changes when a response is there.
    pub fn response_word(&self) -> (r: u32)
        requires
            self.wf(),
        ensures
            self.region.mem.exclusive() ==> r == memory::u32_at(
                self.region.mem.image(),
                client_off(self.client_idx as int) + CE_RESP_NOTIFY,
            ),
    {
        let off: usize = self.region.client_at(self.client_idx);
        self.region.mem.load_u32(off + CE_RESP_NOTIFY)
    }

    /// Counts a thread of the client as sleeping. It is to look for a response
    /// once more before it sleeps.
    fn begin_sleep(&mut self)
        requires
            old(self).wf(),
        ensures
            final(self).wf(),
            old(self).same_client(final(self)),
            final(self).last_resp_seq == old(self).last_resp_seq,
            exists|was: u32|
                final(self).region.mem.accesses() == old(self).region.mem.accesses().push(
                    #[trigger] sleeper_in(old(self).client_idx as int, was),
                ),
            old(self).region.mem.exclusive() ==> {
                let m = old(self).region.mem.image();
                let w = client_off(old(self).client_idx as int) + CE_RESP_WAITERS;
                final(self).region.mem.image() == memory::put32(
                    m,
                    w,
                    memory::wrapping_sum_u32(memory::u32_at(m, w), 1),
                )
            },
    {
        let off: usize = self.region.client_at(self.client_idx);
        let before: u32 = self.region.mem.fetch_add_u32(off + CE_RESP_WAITERS, 1);
        assert(self.region.mem.accesses() == old(self).region.mem.accesses().push(
            sleeper_in(self.client_idx as int, before),
        ));
    }

    /// Counts a thread of the client as awake.
    pub fn end_sleep(&mut self)
        requires
            old(self).wf(),
        ensures
            final(self).wf(),
            old(self).same_client(final(self)),
            final(self).last_resp_seq == old(self).last_resp_seq,
            exists|was: u32|
                final(self).region.mem.accesses() == old(self).region.mem.accesses().push(
                    #[trigger] memory::one_less(client_off(old(self).client_idx as int) + CE_RESP_WAITERS, was),
                ),
            old(self).region.mem.exclusive() ==> {
                let m = old(self).region.mem.image();
                let w = client_off(old(self).client_idx as int) + CE_RESP_WAITERS;
                final(self).region.mem.image() == memory::put32(
                    m,
                    w,
                    memory::wrapping_difference_u32(memory::u32_at(m, w), 1),
                )
            },
    {
        let off: usize = self.region.client_at(self.client_idx);
        let before: u32 = self.region.mem.fetch_sub_u32(off + CE_RESP_WAITERS, 1);
        assert(self.region.mem.accesses() == old(self).region.mem.accesses().push(
            memory::one_less(client_off(self.client_idx as int) + CE_RESP_WAITERS, before),
        ));
    }

    /// What a turn of a waiting client does that finds no response: first it
    /// spins, then it lets others run, and then it sleeps, until it has waited
    /// for too long.
    pub open spec fn waited(
        &self,
        after: &Self,
        wait: RpcWait,
        wait_after: RpcWait,
        now: u64,
        r: RpcTurn,
    ) -> bool {
        let m = self.region.mem.image();
        let off = client_off(self.client_idx as int);
        &&& after.last_resp_seq == self.last_resp_seq
        &&& if wait.sleeps() {
            let limit = wait.limit(now, self.stale_timeout_us);
            &&& wait_after == (RpcWait { deadline: Some(limit), ..wait })
            &&& if now >= limit {
                &&& r matches RpcTurn::Done(Err(e)) && e@
                    == error::CrossbarErrorView::ShmServerDead
                &&& after.region.mem.image() == m
            } else {
                &&& r matches RpcTurn::Sleep(word) && word == memory::u32_at(
                    m,
                    off + CE_RESP_NOTIFY,
                )
                &&& after.region.mem.image() == memory::put32(
                    m,
                    off + CE_RESP_WAITERS,
                    memory::wrapping_sum_u32(memory::u32_at(m, off + CE_RESP_WAITERS), 1),
                )
            }
        } else {
            &&& wait_after == (RpcWait { turn: (wait.turn + 1) as u32, ..wait })
            &&& after.region.mem.image() == m
            &&& if wait.turn < SPIN_ITERS {
                r is Spin
            } else {
                r is Yield
            }
        }
    }

    /// Looks for a response twice more before the client sleeps: the second
    /// time when the server can see that it will.
    fn sleep_turn(&mut self) -> (r: RpcTurn)
        requires
            old(self).wf(),
        ensures
            final(self).wf(),
            old(self).same_client(final(self)),
            r matches RpcTurn::Sleep(word) ==> final(self).fell_asleep(word),
            old(self).region.mem.exclusive() && next_response(
                old(self).region.config,
                old(self).region.mem.image(),
                old(self).client_idx as int,
                old(self).last_resp_seq,
            ) is None ==> {
                let m = old(self).region.mem.image();
                let off = client_off(old(self).client_idx as int);
                &&& r matches RpcTurn::Sleep(word) && word == memory::u32_at(
                    m,
                    off + CE_RESP_NOTIFY,
                )
                &&& final(self).last_resp_seq == old(self).last_resp_seq
                &&& final(self).region.mem.image() == memory::put32(
                    m,
                    off + CE_RESP_WAITERS,
                    memory::wrapping_sum_u32(memory::u32_at(m, off + CE_RESP_WAITERS), 1),
                )
            },
    {
        proof {
            lemma_client(self.region.config, self.client_idx as int);
            lemma_waiters_apart(
                self.region.config,
                self.region.mem.image(),
                self.client_idx as int,
                self.last_resp_seq,
            );
        }
        let ghost first = self.region.mem.accesses();
        let off: usize = self.region.client_at(self.client_idx);
        let word: u32 = self.region.mem.look_u32(off + CE_RESP_NOTIFY);
        let ghost watched = *self;
        match self.try_recv_response() {
            Ok(Some(resp)) => {
                return RpcTurn::Done(Ok(resp));
            },
            Ok(None) => {},
            Err(e) => {
                return RpcTurn::Done(Err(e));
            },
        }
        let ghost tried = *self;
        self.begin_sleep();
        let ghost counted = *self;
        match self.try_recv_response() {
            Ok(Some(resp)) => {
                self.end_sleep();
                RpcTurn::Done(Ok(resp))
            },
            Ok(None) => {
                proof {
                    lemma_fell_asleep(first, watched, tried, counted, *self, word);
                }
                RpcTurn::Sleep(word)
            },
            Err(e) => {
                self.end_sleep();
                RpcTurn::Done(Err(e))
            },
        }
    }

    /// Takes one turn in waiting for the response to a request.
    pub fn wait_turn(&mut self, wait: &mut RpcWait, now: u64) -> (r: RpcTurn)
        requires
            old(self).wf(),
        ensures
            final(self).wf(),
            old(self).same_client(final(self)),
            r matches RpcTurn::Sleep(word) ==> final(self).fell_asleep(word),
            old(wait).sleeps() && now >= old(wait).limit(now, old(self).stale_timeout_us)
                ==> r is Done,
            old(self).region.mem.exclusive() ==> if next_response(
                old(self).region.config,
                old(self).region.mem.image(),
                old(self).client_idx as int,
                old(self).last_resp_seq,
            ) is Some {
                &&& *final(wait) == *old(wait)
                &&& r matches RpcTurn::Done(o) && old(self).looked(
                    final(self),
                    match o {
                        Ok(resp) => Ok(Some(resp)),
                        Err(e) => Err(e),
                    },
                )
            } else {
                old(self).waited(final(self), *old(wait), *final(wait), now, r)
            },
    {
        match self.try_recv_response() {
            Ok(Some(resp)) => {
                return RpcTurn::Done(Ok(resp));
            },
            Ok(None) => {},
            Err(e) => {
                return RpcTurn::Done(Err(e));
            },
        }
        if wait.turn < SPIN_ITERS {
            wait.turn = wait.turn + 1;
            return RpcTurn::Spin;
        }
        if wait.turn < SPIN_ITERS + YIELD_ITERS {
            wait.turn = wait.turn + 1;
            return RpcTurn::Yield;
        }
        let limit: u64 = match wait.deadline {
            Some(d) => d,
            None => now.saturating_add(self.stale_timeout_us),
        };
        wait.deadline = Some(limit);
        if now >= limit {
            return RpcTurn::Done(Err(CrossbarError::ShmServerDead));
        }
        self.sleep_turn()
    }

    /// Disconnects: the entry of this client is free.
    pub fn close(self) -> (r: RpcRegion<M>)
        requires
            self.fits(),
        ensures
            r.fits(),
            self.region.same_segment(&r),
            r.mem.accesses() == self.region.mem.accesses().push(
                (Access::Word32 { off: client_off(self.client_idx as int) + CE_ACTIVE, v: 0 }),
            ),
            self.region.mem.exclusive() ==> r.mem.image() == memory::put32(
                self.region.mem.image(),
                client_off(self.client_idx as int) + CE_ACTIVE,
                0,
            ),
    {
        let mut region: RpcRegion<M> = self.region;
        let off: usize = region.client_at(self.client_idx);
        region.mem.store_u32(off + CE_ACTIVE, 0);
        region
    }
}

} // verus!
