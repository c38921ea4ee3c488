//! Where the parts of segments stand, and what is stored there: byte by byte.

use crate::memory::{self, SharedMemory};
use crate::platform::pod_bus;
use crate::platform::registry;
use crate::protocol::config::PubSubConfig;
use crate::protocol::header;
use crate::protocol::pool::{self, PoolLayout};
use crate::transport::message_laws;
use crate::transport::shm::pool_pubsub::{self, PoolPubSubConfig};
use crate::transport::shm::pubsub;
use crate::transport::shm::pubsub_rpc::{self, PubSubRpcClient, PubSubRpcConfig};
use crate::transport::shm::region::{self, ShmConfig};
use crate::transport::shm::service;
use crate::types::ResponseView;
use vstd::prelude::*;

verus! {

broadcast use crate::memory::group_memory;

/// Two images differ at most from `from` up to `to`.
pub open spec fn differ_within(m: Seq<u8>, n: Seq<u8>, from: int, to: int) -> bool {
    &&& n.len() == m.len()
    &&& forall|i: int| 0 <= i < m.len() && !(from <= i < to) ==> #[trigger] n[i] == m[i]
}

/// The header of a segment says what the segment is, what it was made with, and by which
/// process. The list of blocks and the heartbeat are not touched.
pub proof fn law_header_of_a_segment(c: PubSubConfig, m: Seq<u8>, pid: u64)
    requires
        m.len() >= 128,
    ensures
        ({
            let n = header::with_header(c, m, pid);
            &&& n.subrange(0, 8) == seq![0x58u8, 0x42, 0x41, 0x52, 0x5F, 0x5A, 0x43, 0x00]
            &&& memory::u32_at(n, 8) == 3
            &&& memory::u32_at(n, 12) == c.max_topics
            &&& memory::u32_at(n, 16) == c.block_count
            &&& memory::u32_at(n, 20) == c.block_size
            &&& memory::u32_at(n, 24) == c.ring_depth
            &&& memory::u64_at(n, 48) == pid
            &&& memory::u64_at(n, 56) == c.stale_timeout_us
            &&& differ_within(m, n, 0, 64)
            &&& forall|i: int| 28 <= i < 48 ==> #[trigger] n[i] == m[i]
        }),
{
    let n = header::with_header(c, m, pid);
    assert(n.subrange(0, 8) =~= seq![0x58u8, 0x42, 0x41, 0x52, 0x5F, 0x5A, 0x43, 0x00]);
}

/// The header of a bus says what the bus is, what it was made with, and by which process;
/// nothing is published on it.
pub proof fn law_header_of_a_bus(
    m: Seq<u8>,
    value_size: nat,
    value_align: nat,
    ring_size: nat,
    watermark: Option<u64>,
    pid: u64,
)
    requires
        m.len() >= 64,
        value_size <= u32::MAX,
        value_align <= u32::MAX,
        ring_size <= u32::MAX,
        watermark matches Some(w) ==> w <= u32::MAX,
    ensures
        ({
            let n = pod_bus::with_bus_header(m, value_size, value_align, ring_size, watermark, pid);
            &&& n.subrange(0, 8) == seq![0x58u8, 0x50, 0x4F, 0x44, 0x5F, 0x5A, 0x43, 0x00]
            &&& memory::u32_at(n, 8) == if watermark is Some {
                2u32
            } else {
                1
            }
            &&& memory::u32_at(n, 12) == ring_size
            &&& memory::u32_at(n, 16) == value_size
            &&& memory::u32_at(n, 20) == value_align
            &&& memory::u64_at(n, 32) == 0
            &&& memory::u64_at(n, 40) == pid
            &&& memory::u32_at(n, 48) == match watermark {
                Some(w) => w,
                None => 0,
            }
            &&& differ_within(m, n, 0, 52)
        }),
{
    let n = pod_bus::with_bus_header(m, value_size, value_align, ring_size, watermark, pid);
    assert(n.subrange(0, 8) =~= seq![0x58u8, 0x50, 0x4F, 0x44, 0x5F, 0x5A, 0x43, 0x00]);
}

/// The header of a segment with rings of samples says what it is, what it was made with, by
/// which process, and when.
pub proof fn law_header_of_a_ring_segment(c: pubsub::PubSubConfig, m: Seq<u8>, pid: u32, now: u64)
    requires
        m.len() >= 128,
    ensures
        ({
            let n = pubsub::with_header(c, m, pid, now);
            &&& n.subrange(0, 8) == seq![88u8, 66, 65, 82, 95, 80, 83, 0]
            &&& memory::u32_at(n, 8) == 1
            &&& memory::u32_at(n, 12) == c.max_topics
            &&& memory::u32_at(n, 16) == c.sample_capacity
            &&& memory::u32_at(n, 20) == c.ring_depth
            &&& memory::u64_at(n, 24) == now
            &&& memory::u64_at(n, 32) == pid
            &&& memory::u64_at(n, 40) == c.stale_timeout_us
            &&& differ_within(m, n, 0, 48)
        }),
{
    let n = pubsub::with_header(c, m, pid, now);
    assert(n.subrange(0, 8) =~= seq![88u8, 66, 65, 82, 95, 80, 83, 0]);
}

/// The header of a segment with a pool of samples says what it is, what it was made with, and
/// by which process.
pub proof fn law_header_of_a_pool_segment(c: PoolPubSubConfig, m: Seq<u8>, pid: u32)
    requires
        m.len() >= 128,
    ensures
        ({
            let n = pool_pubsub::with_header(c, m, pid);
            &&& n.subrange(0, 8) == seq![88u8, 66, 65, 82, 95, 90, 67, 0]
            &&& memory::u32_at(n, 8) == 1
            &&& memory::u32_at(n, 12) == c.max_topics
            &&& memory::u32_at(n, 16) == c.block_count
            &&& memory::u32_at(n, 20) == c.block_size
            &&& memory::u32_at(n, 24) == c.ring_depth
            &&& memory::u64_at(n, 48) == pid
            &&& memory::u64_at(n, 56) == c.stale_timeout_us
            &&& differ_within(m, n, 0, 64)
        }),
{
    let n = pool_pubsub::with_header(c, m, pid);
    assert(n.subrange(0, 8) =~= seq![88u8, 66, 65, 82, 95, 90, 67, 0]);
}

/// The header of a segment of the ring exchange says what it is, what it was made with, and
/// by which process.
pub proof fn law_header_of_an_exchange(c: PubSubRpcConfig, m: Seq<u8>, pid: u32)
    requires
        m.len() >= 128,
    ensures
        ({
            let n = pubsub_rpc::with_header(c, m, pid);
            &&& n.subrange(0, 8) == seq![88u8, 66, 65, 82, 95, 82, 67, 0]
            &&& memory::u32_at(n, 8) == 1
            &&& memory::u32_at(n, 12) == c.max_clients
            &&& memory::u32_at(n, 16) == c.block_count
            &&& memory::u32_at(n, 20) == c.block_size
            &&& memory::u32_at(n, 24) == c.ring_depth
            &&& memory::u64_at(n, 48) == pid
            &&& memory::u64_at(n, 64) == c.stale_timeout_us
            &&& differ_within(m, n, 0, 72)
        }),
{
    let n = pubsub_rpc::with_header(c, m, pid);
    assert(n.subrange(0, 8) =~= seq![88u8, 66, 65, 82, 95, 82, 67, 0]);
}

/// The header of a segment for requests says what it is, what it was made with, by which
/// process, and when.
pub proof fn law_header_of_a_request_segment(c: ShmConfig, m: Seq<u8>, pid: u32, now: u64)
    requires
        m.len() >= 128,
    ensures
        ({
            let n = region::with_header(c, m, pid, now);
            &&& n.subrange(0, 8) == seq![88u8, 66, 65, 82, 95, 86, 50, 0]
            &&& memory::u32_at(n, 8) == 2
            &&& memory::u32_at(n, 12) == c.slot_count
            &&& memory::u32_at(n, 16) == c.block_count
            &&& memory::u32_at(n, 20) == c.block_size
            &&& memory::u64_at(n, 24) == now
            &&& memory::u64_at(n, 32) == pid
            &&& differ_within(m, n, 0, 40)
        }),
{
    let n = region::with_header(c, m, pid, now);
    assert(n.subrange(0, 8) =~= seq![88u8, 66, 65, 82, 95, 86, 50, 0]);
}

/// Subscribers of a topic are told of a sample by one more in the word that they wait for,
/// and nothing else changes.
pub proof fn law_subscribers_are_told(m: Seq<u8>, topic: int)
    requires
        0 <= topic,
        128 + (topic + 1) * 128 <= m.len(),
    ensures
        ({
            let w = 128 + topic * 128 + 4;
            let a = pubsub::with_notice(m, topic);
            let b = pool_pubsub::with_notice(m, topic);
            &&& memory::u32_at(a, w) == (memory::u32_at(m, w) + 1) % 0x1_0000_0000
            &&& differ_within(m, a, w, w + 4)
            &&& b == a
        }),
{
}

/// A server that takes a request says so in the slot, with the time, and changes nothing
/// else.
pub proof fn law_claimed_slot(m: Seq<u8>, slot: int, now: u64)
    requires
        0 <= slot,
        128 + (slot + 1) * 64 <= m.len(),
    ensures
        ({
            let n = service::with_claim(m, slot, now);
            let s = 128 + slot * 64;
            &&& memory::u32_at(n, s) == 2
            &&& memory::u64_at(n, s + 16) == now
            &&& differ_within(m, n, s, s + 24)
            &&& forall|i: int| s + 4 <= i < s + 16 ==> #[trigger] n[i] == m[i]
        }),
{
}

/// A bare status is stored without a body, without headers and without a block; a slot that
/// is let go names no blocks.
pub proof fn law_bare_status(m: Seq<u8>, slot: int, status: u16)
    requires
        0 <= slot,
        128 + (slot + 1) * 64 <= m.len(),
    ensures
        ({
            let n = service::with_bare_status(m, slot, status);
            let s = 128 + slot * 64;
            &&& memory::u16_at(n, s + 48) == status
            &&& memory::u32_at(n, s + 52) == 0
            &&& memory::u32_at(n, s + 56) == 0
            &&& memory::u32_at(n, s + 44) == 0xFFFF_FFFF
            &&& differ_within(m, n, s + 44, s + 60)
        }),
        ({
            let n = service::with_no_blocks(m, slot);
            let s = 128 + slot * 64;
            &&& memory::u32_at(n, s + 40) == 0xFFFF_FFFF
            &&& memory::u32_at(n, s + 44) == 0xFFFF_FFFF
            &&& differ_within(m, n, s + 40, s + 48)
        }),
{
}

/// The entry of a client of the ring exchange says that it is taken, by which process and
/// which client; and neither requests nor responses are announced in it.
pub proof fn law_entry_of_a_client(m: Seq<u8>, client: int, pid: u32, id: u64)
    requires
        0 <= client,
        128 + (client + 1) * 64 <= m.len(),
    ensures
        ({
            let n = pubsub_rpc::with_client(m, client, pid, id);
            let s = 128 + client * 64;
            &&& memory::u32_at(n, s) == 1
            &&& memory::u32_at(n, s + 4) == pid
            &&& memory::u64_at(n, s + 8) == id
            &&& memory::u64_at(n, s + 16) == 0
            &&& memory::u64_at(n, s + 24) == 0
            &&& differ_within(m, n, s, s + 32)
        }),
{
}

/// A request of the ring exchange that makes no sense is answered with status 400 and a text
/// that says so, if that fits in a block.
#[verifier::rlimit(50)]
pub proof fn law_senseless_message_is_answered(c: PubSubRpcConfig)
    requires
        pubsub_rpc::capacity_of(c) >= 0,
    ensures
        pubsub_rpc::sent_malformed(c) == if 33 <= pubsub_rpc::capacity_of(c) {
            Some(
                ResponseView {
                    status: 400,
                    headers: Seq::empty(),
                    body: vstd::utf8::encode_utf8("malformed request"@),
                },
            )
        } else {
            None
        },
{
    reveal_strlit("malformed request");
    let t = "malformed request"@;
    assert(vstd::utf8::is_ascii_chars(t));
    vstd::utf8::is_ascii_chars_encode_utf8(t);
    let v = pubsub_rpc::malformed();
    message_laws::law_ring_message_is_refused_if_too_large(
        crate::transport::shm::rpc_message::response_used(v),
        v.headers,
        pubsub_rpc::capacity_of(c) as nat,
    );
}

/// A block of a pool has a head of eight bytes, and the rest of it is for data.
pub proof fn law_room_in_a_block(c: PubSubConfig, p: PoolPubSubConfig, q: PubSubRpcConfig)
    ensures
        crate::protocol::region::capacity_of(c) == c.block_size - 8,
        pool_pubsub::capacity_of(p) == p.block_size - 8,
        pubsub_rpc::capacity_of(q) == q.block_size - 8,
{
}

/// A client that was sent a response is told by one more in the word that it waits for.
pub proof fn law_client_is_told(
    c: PubSubRpcConfig,
    m: Seq<u8>,
    client: int,
    block: u32,
    seq: u64,
)
    requires
        0 <= client < c.max_clients,
        c.ring_depth > 0,
        pubsub_rpc::region_size(c) <= m.len(),
    ensures
        ({
            let n = pubsub_rpc::after_respond(c, m, client, block, None, 0, seq);
            let w = 128 + client * 64 + 32;
            memory::u32_at(n, w) == (memory::u32_at(m, w) + 1) % 0x1_0000_0000
        }),
{
    pubsub_rpc::lemma_client(c, client);
    pubsub_rpc::lemma_rings(c, client, seq);
}

/// A segment is a registry exactly if it has the room, the magic bytes and the version. It
/// has 256 entries of 128 bytes behind a header of 64, and counts those in use.
#[verifier::rlimit(40)]
pub proof fn law_what_a_registry_is(
    m: Seq<u8>,
    i: int,
    region: Seq<char>,
    uri: Seq<char>,
    pid: u32,
    now: u64,
)
    requires
        m.len() >= 32832,
        0 <= i < 256,
    ensures
        registry::is_registry(m) <==> {
            &&& m.subrange(0, 8) == seq![0x58u8, 0x52, 0x45, 0x47, 0x5F, 0x5A, 0x43, 0x00]
            &&& memory::u32_at(m, 8) == 1
        },
        registry::is_registry(registry::new_registry(m)),
        memory::u32_at(registry::new_registry(m), 16) == 256,
        memory::u32_at(registry::new_registry(m), 12) == memory::u32_at(m, 12),
        registry::entry_off(i) == 64 + i * 128,
        ({
            let n = registry::with_entry(m, i, region, uri, pid, now);
            let e = 64 + i * 128;
            &&& memory::u32_at(n, e) == 1
            &&& memory::u32_at(n, e + 4) == pid
            &&& memory::u64_at(n, e + 8) == now
            &&& memory::u32_at(n, 12) == (memory::u32_at(m, 12) + 1) % 0x1_0000_0000
        }),
        ({
            let n = registry::without_entry(m, i);
            let e = 64 + i * 128;
            &&& memory::u32_at(n, e) == 0
            &&& memory::u32_at(m, 12) > 0 ==> memory::u32_at(n, 12) == memory::u32_at(m, 12) - 1
            &&& memory::u32_at(m, 12) == 0 ==> memory::u32_at(n, 12) == 0
            &&& forall|k: int|
                64 <= k < m.len() && !(e <= k < e + 4) ==> #[trigger] n[k] == m[k]
        }),
{
    let n = registry::new_registry(m);
    assert(n.subrange(0, 8) =~= registry::reg_magic());
    assert(registry::reg_magic() =~= seq![0x58u8, 0x52, 0x45, 0x47, 0x5F, 0x5A, 0x43, 0x00]);
}

/// Where the parts of a bus are: behind a header of 64 bytes, on a bounded bus, 64 slots for
/// subscribers of 16 bytes each, and behind those the ring.
pub proof fn law_where_the_parts_of_a_bus_are(value_size: nat, i: int)
    ensures
        pod_bus::sub_slot(i) == 64 + i * 16,
        pod_bus::ring_slot(value_size, false, i) == 64 + i * pod_bus::slot_bytes(value_size),
        pod_bus::ring_slot(value_size, true, i) == 1088 + i * pod_bus::slot_bytes(value_size),
        pod_bus::MAX_SUBSCRIBER_SLOTS == 64,
{
}

/// Where the parts of a registry entry are, and when a topic counts as gone.
pub proof fn law_sizes_in_a_registry()
    ensures
        registry::REG_MAX_ENTRIES == 256,
        registry::RE_REGION_NAME_MAX == 48,
        registry::RE_TOPIC_URI_MAX == 64,
        registry::RE_REGION_NAME == 16,
        registry::RE_TOPIC_URI == 64,
        registry::DISCOVER_STALE_US == 10_000_000,
{
}

/// A value is published under its number: while it is written its stamp is odd, and then it
/// is the next even one.
pub proof fn law_stamps(seq: u64)
    requires
        2 * seq + 2 <= u64::MAX,
    ensures
        pod_bus::writing_stamp(seq) == 2 * seq + 1,
        pod_bus::done_stamp(seq) == 2 * seq + 2,
{
}

/// What a pool lends is the first block of its list, if the list begins with a block that
/// there is; a pool that checks its links lends it only if its link leads to a block that
/// there is, or nowhere. The list then begins with what the link names, in the next
/// generation. Nothing is lent otherwise, and nothing changes.
pub proof fn law_lending_from_a_list(p: PoolLayout, m: Seq<u8>)
    requires
        p.fits(m.len()),
    ensures
        ({
            let head = memory::u64_at(m, p.head as int);
            let first = head % 0x1_0000_0000;
            let link = memory::u32_at(m, p.base + first * p.block_size);
            let sound = first < p.block_count && (!p.checks_links || link == 0xFFFF_FFFF || link
                < p.block_count);
            let n = p.after_alloc(m);
            &&& sound ==> {
                &&& p.alloc_choice(m) == Some(first as u32)
                &&& memory::u64_at(n, p.head as int) == (head / 0x1_0000_0000 + 1)
                    % 0x1_0000_0000 * 0x1_0000_0000 + link
                &&& differ_within(m, n, p.head as int, p.head + 8)
            }
            &&& !sound ==> p.alloc_choice(m) is None && n == m
        }),
{
    pool::lemma_bounds(p, m.len());
    let head = memory::u64_at(m, p.head as int);
    let gen = memory::wrapping_sum_u32(pool::gen_of(head), 1);
    assert(gen == (head / 0x1_0000_0000 + 1) % 0x1_0000_0000);
}

/// A block that is given back to a pool links to the block that was first in the list, and is
/// first itself, in the next generation; what is no block of the pool is ignored.
#[verifier::rlimit(50)]
pub proof fn law_giving_back_to_a_list(p: PoolLayout, m: Seq<u8>, block: u32)
    requires
        p.fits(m.len()),
    ensures
        ({
            let head = memory::u64_at(m, p.head as int);
            let n = p.after_free(m, block);
            let b = p.base + block * p.block_size;
            &&& block >= p.block_count ==> n == m
            &&& block < p.block_count ==> {
                &&& memory::u32_at(n, b) == head % 0x1_0000_0000
                &&& memory::u64_at(n, p.head as int) == (head / 0x1_0000_0000 + 1)
                    % 0x1_0000_0000 * 0x1_0000_0000 + block
                &&& n.len() == m.len()
                &&& forall|i: int|
                    0 <= i < m.len() && !(b <= i < b + 4) && !(p.head <= i < p.head + 8)
                        ==> #[trigger] n[i] == m[i]
            }
        }),
{
    pool::lemma_bounds(p, m.len());
    let head = memory::u64_at(m, p.head as int);
    let gen = memory::wrapping_sum_u32(pool::gen_of(head), 1);
    assert(gen == (head / 0x1_0000_0000 + 1) % 0x1_0000_0000);
    if block < p.block_count {
        pool::lemma_block(p, block as int, m.len());
        let m1 = memory::put32(m, p.block(block as int), p.first(m));
        assert(memory::u64_at(m1, p.head as int) == head);
        let n = p.after_free(m, block);
        assert(memory::u32_at(n, p.block(block as int)) == memory::u32_at(
            m1,
            p.block(block as int),
        ));
    }
}

/// A client of the ring exchange looks after its server with every 1024th request.
pub proof fn law_when_a_client_looks_after_its_server<M: SharedMemory>(s: PubSubRpcClient<M>)
    ensures
        s.check_due() <==> s.request_count % 1024 == 1023,
{
}

/// A topic that is registered while the clock cannot be read has the time zero, and any other
/// one the time of the clock.
pub proof fn law_time_of_a_registration(now: Option<u64>)
    ensures
        now is None ==> registry::time_of(now) == 0,
        now matches Some(t) ==> registry::time_of(now) == t,
{
}

} // verus!
