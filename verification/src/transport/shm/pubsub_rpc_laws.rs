//! What holds of requests and responses over rings.

use crate::error;
use crate::handler::Handler;
use crate::memory;
use crate::protocol::laws as segment_laws;
use crate::protocol::pool;
use crate::router::Router;
use crate::transport::client;
use crate::transport::shm::cells;
use crate::transport::shm::pubsub_laws;
use crate::transport::shm::pubsub_rpc::{
    self, ClientState, PubSubRpcConfig, CE_RESP_NOTIFY, CLIENT_ENTRY_SIZE, GH_HEARTBEAT, GH_POOL_HEAD,
    HEADER_SIZE,
};
use crate::transport::shm::rings::{self, RING_ENTRY_SIZE};
use crate::transport::shm::rpc_message;
use crate::types::{self, Request};
use vstd::prelude::*;

verus! {

broadcast use crate::memory::group_memory;

/// A segment has room for its parts.
pub open spec fn fits(c: PubSubRpcConfig, m: Seq<u8>) -> bool {
    pubsub_rpc::sound(c) && pubsub_rpc::region_size(c) <= m.len() <= usize::MAX
}

/// A segment that was created is accepted with the parameters that it was
/// created with, and its heartbeat is the time at which it was.
pub proof fn law_create_then_open(c: PubSubRpcConfig, m: Seq<u8>, pid: u32, now: u64)
    requires
        fits(c, m),
    ensures
        ({
            let n = pubsub_rpc::created(c, m, pid, now);
            let h = pubsub_rpc::header_config(n);
            &&& pubsub_rpc::header_fault(n) is None
            &&& h == (PubSubRpcConfig { heartbeat_interval_us: h.heartbeat_interval_us, ..c })
            &&& memory::u64_at(n, GH_HEARTBEAT as int) == now
        }),
{
    let w = pubsub_rpc::with_header(c, m, pid);
    let p = pubsub_rpc::pool_of(c).after_init(w);
    let b = memory::put64(p, GH_HEARTBEAT as int, now);
    let n = pubsub_rpc::created(c, m, pid, now);
    let h = pubsub_rpc::header_config(n);
    pubsub_rpc::lemma_parts(c);
    lemma_init_keeps(c, w);
    lemma_rings_cleared(c, b);
    lemma_header(c, m, pid);
    assert forall|i: int| 0 <= i < GH_POOL_HEAD implies #[trigger] n[i] == w[i] by {
        assert(b[i] == p[i]);
    }
    assert forall|i: int| 0x40 <= i < 0x48 implies #[trigger] n[i] == w[i] by {
        assert(b[i] == p[i]);
    }
    assert(memory::bytes_at(n, 0, 8) =~= memory::bytes_at(w, 0, 8));
    assert forall|i: int| GH_HEARTBEAT <= i < GH_HEARTBEAT + 8 implies #[trigger] n[i] == b[i] by {}
    assert(memory::u64_at(b, GH_HEARTBEAT as int) == now);
    assert(pubsub_rpc::region_size(h) == pubsub_rpc::region_size(c));
}

proof fn lemma_header(c: PubSubRpcConfig, m: Seq<u8>, pid: u32)
    requires
        HEADER_SIZE <= m.len(),
    ensures
        ({
            let w = pubsub_rpc::with_header(c, m, pid);
            &&& w.len() == m.len()
            &&& memory::bytes_at(w, 0, 8) == pubsub_rpc::magic()
            &&& memory::u32_at(w, pubsub_rpc::GH_VERSION as int) == pubsub_rpc::VERSION
            &&& memory::u32_at(w, pubsub_rpc::GH_MAX_CLIENTS as int) == c.max_clients
            &&& memory::u32_at(w, pubsub_rpc::GH_BLOCK_COUNT as int) == c.block_count
            &&& memory::u32_at(w, pubsub_rpc::GH_BLOCK_SIZE as int) == c.block_size
            &&& memory::u32_at(w, pubsub_rpc::GH_RING_DEPTH as int) == c.ring_depth
            &&& memory::u64_at(w, pubsub_rpc::GH_STALE_TIMEOUT_US as int) == c.stale_timeout_us
            &&& forall|i: int| HEADER_SIZE <= i < m.len() ==> #[trigger] w[i] == m[i]
        }),
{
    let w = pubsub_rpc::with_header(c, m, pid);
    assert(memory::bytes_at(w, 0, 8) =~= pubsub_rpc::magic());
}

/// Emptying the rings leaves all other bytes alone.
proof fn lemma_rings_cleared(c: PubSubRpcConfig, m: Seq<u8>)
    requires
        pubsub_rpc::sound(c),
        pubsub_rpc::region_size(c) <= m.len(),
    ensures
        ({
            let k = (c.max_clients * c.ring_depth) as nat;
            let a = rings::with_empty_entries(m, pubsub_rpc::req_base(c), k);
            let n = rings::with_empty_entries(a, pubsub_rpc::resp_base(c), k);
            &&& n.len() == m.len()
            &&& forall|i: int|
                0 <= i < m.len() && !(pubsub_rpc::req_base(c) <= i < pubsub_rpc::pool_off(c))
                    ==> #[trigger] n[i] == m[i]
        }),
{
    pubsub_rpc::lemma_parts(c);
    cells::lemma_table(c.max_clients as int, c.ring_depth as int, RING_ENTRY_SIZE as int);
    let k = (c.max_clients * c.ring_depth) as nat;
    let a = rings::with_empty_entries(m, pubsub_rpc::req_base(c), k);
    rings::lemma_empty_entries(m, pubsub_rpc::req_base(c), k);
    rings::lemma_empty_entries(a, pubsub_rpc::resp_base(c), k);
    let n = rings::with_empty_entries(a, pubsub_rpc::resp_base(c), k);
    assert forall|i: int|
        0 <= i < m.len() && !(pubsub_rpc::req_base(c) <= i < pubsub_rpc::pool_off(
            c,
        )) implies #[trigger] n[i] == m[i] by {
        assert(a[i] == m[i]);
    }
}

/// Putting the blocks on the free list changes the pool and its head only.
proof fn lemma_init_keeps(c: PubSubRpcConfig, m: Seq<u8>)
    requires
        fits(c, m),
    ensures
        pubsub_rpc::pool_of(c).after_init(m).len() == m.len(),
        forall|i: int|
            0 <= i < pubsub_rpc::pool_off(c) && !(GH_POOL_HEAD <= i < GH_POOL_HEAD + 8)
                ==> #[trigger] pubsub_rpc::pool_of(c).after_init(m)[i] == m[i],
{
    pubsub_rpc::lemma_parts(c);
    lemma_linked_keeps(c, m, c.block_count as nat);
    let l = pubsub_rpc::pool_of(c).linked(m, c.block_count as nat);
    assert forall|i: int|
        0 <= i < pubsub_rpc::pool_off(c) && !(GH_POOL_HEAD <= i < GH_POOL_HEAD
            + 8) implies #[trigger] pubsub_rpc::pool_of(c).after_init(m)[i] == m[i] by {
        assert(l[i] == m[i]);
    }
}

proof fn lemma_linked_keeps(c: PubSubRpcConfig, m: Seq<u8>, n: nat)
    requires
        fits(c, m),
        n <= c.block_count,
    ensures
        pubsub_rpc::pool_of(c).linked(m, n).len() == m.len(),
        forall|i: int|
            0 <= i < pubsub_rpc::pool_off(c) ==> #[trigger] pubsub_rpc::pool_of(c).linked(m, n)[i]
                == m[i],
    decreases n,
{
    if n > 0 {
        let k = n - 1;
        lemma_linked_keeps(c, m, k as nat);
        pubsub_rpc::lemma_block(c, k);
        let m0 = pubsub_rpc::pool_of(c).linked(m, k as nat);
        let m1 = pubsub_rpc::pool_of(c).linked(m, n);
        assert forall|i: int| 0 <= i < pubsub_rpc::pool_off(c) implies #[trigger] m1[i] == m[i] by {
            assert(m0[i] == m[i]);
        }
    }
}

/// A new segment has every block in its pool.
pub proof fn law_created_blocks_are_free(c: PubSubRpcConfig, m: Seq<u8>, pid: u32, now: u64)
    requires
        c.block_count > 0,
        fits(c, m),
    ensures
        pubsub_rpc::pool_of(c).is_free_list(
            pubsub_rpc::created(c, m, pid, now),
            pubsub_rpc::pool_of(c).full_list(),
        ),
{
    let p = pubsub_rpc::pool_of(c);
    let l = p.full_list();
    let w = pubsub_rpc::with_header(c, m, pid);
    let a = p.after_init(w);
    let b = memory::put64(a, GH_HEARTBEAT as int, now);
    let n = pubsub_rpc::created(c, m, pid, now);
    pubsub_rpc::lemma_parts(c);
    pubsub_rpc::lemma_pool(c, m.len());
    pool::law_init_frees_every_block(p, w);
    lemma_init_keeps(c, w);
    lemma_rings_cleared(c, b);
    assert(p.first(n) == p.first(a)) by {
        assert forall|i: int| GH_POOL_HEAD <= i < GH_POOL_HEAD + 8 implies #[trigger] n[i]
            == a[i] by {
            assert(b[i] == a[i]);
        }
    }
    assert forall|i: int| 0 <= i < l.len() implies p.next(n, #[trigger] l[i] as int) == pool::link(
        l,
        i + 1,
    ) by {
        pubsub_rpc::lemma_block(c, i);
        let o = p.block(i);
        assert(n[o] == b[o] && n[o + 1] == b[o + 1] && n[o + 2] == b[o + 2] && n[o + 3] == b[o
            + 3]);
        assert(p.next(a, l[i] as int) == pool::link(l, i + 1));
    }
}

/// A segment that was created in zeroed memory has all client entries free, so
/// that the first client gets the first one.
pub proof fn law_created_clients_are_free(
    c: PubSubRpcConfig,
    m: Seq<u8>,
    pid: u32,
    now: u64,
    client: int,
)
    requires
        fits(c, m),
        forall|i: int| 0 <= i < m.len() ==> #[trigger] m[i] == 0,
        0 <= client < c.max_clients,
    ensures
        pubsub_rpc::active(pubsub_rpc::created(c, m, pid, now), client) == 0,
        pubsub_rpc::free_client(c, pubsub_rpc::created(c, m, pid, now), 0) == Some(0u32),
{
    lemma_created_client(c, m, pid, now, client);
    lemma_created_client(c, m, pid, now, 0);
}

proof fn lemma_created_client(c: PubSubRpcConfig, m: Seq<u8>, pid: u32, now: u64, client: int)
    requires
        fits(c, m),
        forall|i: int| 0 <= i < m.len() ==> #[trigger] m[i] == 0,
        0 <= client < c.max_clients,
    ensures
        pubsub_rpc::active(pubsub_rpc::created(c, m, pid, now), client) == 0,
{
    let w = pubsub_rpc::with_header(c, m, pid);
    let a = pubsub_rpc::pool_of(c).after_init(w);
    let b = memory::put64(a, GH_HEARTBEAT as int, now);
    let n = pubsub_rpc::created(c, m, pid, now);
    let o = pubsub_rpc::client_off(client);
    pubsub_rpc::lemma_parts(c);
    pubsub_rpc::lemma_client(c, client);
    lemma_header(c, m, pid);
    lemma_init_keeps(c, w);
    lemma_rings_cleared(c, b);
    assert forall|i: int| o <= i < o + 4 implies #[trigger] n[i] == 0 by {
        assert(b[i] == a[i]);
        assert(a[i] == w[i]);
        assert(w[i] == m[i]);
    }
    memory::lemma_u32_of(n, o, 0);
}

/// An entry that a client took is not given to another one until it is closed.
pub proof fn law_clients_do_not_share_an_entry(
    c: PubSubRpcConfig,
    m: Seq<u8>,
    client: u32,
    pid: u32,
    id: u64,
)
    requires
        fits(c, m),
        client < c.max_clients,
    ensures
        ({
            let n = pubsub_rpc::with_client(m, client as int, pid, id);
            &&& pubsub_rpc::active(n, client as int) == 1
            &&& pubsub_rpc::free_client(c, n, 0) != Some(client)
            &&& pubsub_rpc::req_seq(n, client as int) == 0
            &&& pubsub_rpc::resp_seq(n, client as int) == 0
        }),
{
    let n = pubsub_rpc::with_client(m, client as int, pid, id);
    pubsub_rpc::lemma_client(c, client as int);
    assert(pubsub_rpc::active(n, client as int) == 1);
    lemma_free_client_is_free(c, n, 0);
}

proof fn lemma_free_client_is_free(c: PubSubRpcConfig, m: Seq<u8>, from: int)
    requires
        0 <= from <= c.max_clients,
    ensures
        pubsub_rpc::free_client(c, m, from) matches Some(i) ==> i < c.max_clients
            && pubsub_rpc::active(m, i as int) == 0,
    decreases c.max_clients - from,
{
    if from < c.max_clients && pubsub_rpc::active(m, from) != 0 {
        lemma_free_client_is_free(c, m, from + 1);
    }
}

/// Writing in the data of a block changes nothing before the pool.
proof fn lemma_data_keeps(c: PubSubRpcConfig, m: Seq<u8>, block: u32, at: int, b: Seq<u8>)
    requires
        fits(c, m),
        block < c.block_count,
        0 <= at,
        at + b.len() <= pubsub_rpc::capacity_of(c),
    ensures
        ({
            let n = memory::put(m, pubsub_rpc::data_off(c, block as int) + at, b);
            &&& n.len() == m.len()
            &&& forall|i: int| 0 <= i < pubsub_rpc::pool_off(c) ==> #[trigger] n[i] == m[i]
        }),
{
    pubsub_rpc::lemma_block(c, block as int);
}

/// The segment after a request was written in a block and put in the ring of
/// its client.
pub open spec fn sent(
    c: PubSubRpcConfig,
    m: Seq<u8>,
    client: int,
    block: u32,
    v: types::RequestView,
    correlation: u32,
    seq: u64,
) -> Seq<u8> {
    let message = rpc_message::request_message(v, correlation);
    pubsub_rpc::with_request(
        c,
        memory::put(m, pubsub_rpc::data_off(c, block as int), message),
        client,
        block,
        message.len() as u32,
        seq,
    )
}

/// A server that has taken all earlier requests of a client takes the next one
/// as it was sent.
#[verifier::rlimit(40)]
pub proof fn law_sent_request_is_taken(
    c: PubSubRpcConfig,
    m: Seq<u8>,
    client: int,
    block: u32,
    v: types::RequestView,
    correlation: u32,
    last: u64,
)
    requires
        fits(c, m),
        0 <= client < c.max_clients,
        block < c.block_count,
        last < u64::MAX,
        rpc_message::message_fault(
            rpc_message::request_used(v),
            v.headers,
            pubsub_rpc::capacity_of(c) as nat,
        ) is None,
        types::text_bytes(v.uri).len() <= 65535,
        types::distinct_keys(v.headers),
    ensures
        ({
            let n = sent(c, m, client, block, v, correlation, (last + 1) as u64);
            let len = rpc_message::request_message(v, correlation).len() as u32;
            &&& pubsub_rpc::next_request(c, n, client, last) == Some((block, len))
            &&& pubsub_rpc::request_at(c, n, block, len) == Ok::<
                (types::RequestView, u32),
                error::CrossbarErrorView,
            >((v, correlation))
        }),
{
    let seq = (last + 1) as u64;
    let message = rpc_message::request_message(v, correlation);
    let d = pubsub_rpc::data_off(c, block as int);
    let w = memory::put(m, d, message);
    pubsub_rpc::lemma_block(c, block as int);
    rpc_message::law_request_message_round_trip(v, correlation, pubsub_rpc::capacity_of(c) as nat);
    rpc_message::lemma_request_len(v, correlation, pubsub_rpc::capacity_of(c) as nat);
    lemma_request_entry(c, w, client, block, message.len() as u32, seq);
    let n = pubsub_rpc::with_request(c, w, client, block, message.len() as u32, seq);
    assert(memory::bytes_at(w, d, message.len() as int) == message);
    assert(memory::bytes_at(n, d, message.len() as int) =~= memory::bytes_at(
        w,
        d,
        message.len() as int,
    ));
}

/// What was put in a request ring is found there, and blocks are not touched.
proof fn lemma_request_entry(
    c: PubSubRpcConfig,
    m: Seq<u8>,
    client: int,
    block: u32,
    len: u32,
    seq: u64,
)
    requires
        fits(c, m),
        0 <= client < c.max_clients,
        block < c.block_count,
    ensures
        ({
            let n = pubsub_rpc::with_request(c, m, client, block, len, seq);
            &&& n.len() == m.len()
            &&& pubsub_rpc::req_seq(n, client) == seq
            &&& pubsub_rpc::entry_in(n, pubsub_rpc::req_off(c, client, seq), seq) == Some(
                (block, len),
            )
            &&& forall|i: int|
                pubsub_rpc::pool_off(c) <= i < m.len() ==> #[trigger] n[i] == m[i]
        }),
{
    pubsub_rpc::lemma_client(c, client);
    pubsub_rpc::lemma_rings(c, client, seq);
    pubsub_rpc::lemma_pool(c, m.len());
}

/// What was put in a response ring is found there, and blocks are not touched,
/// nor is anything when the client is told.
proof fn lemma_response_entry(
    c: PubSubRpcConfig,
    m: Seq<u8>,
    client: int,
    block: u32,
    len: u32,
    seq: u64,
    word: u32,
)
    requires
        fits(c, m),
        0 <= client < c.max_clients,
        block < c.block_count,
    ensures
        ({
            let n = memory::put32(
                pubsub_rpc::with_response(c, m, client, block, len, seq),
                pubsub_rpc::client_off(client) + CE_RESP_NOTIFY,
                word,
            );
            &&& n.len() == m.len()
            &&& pubsub_rpc::resp_seq(n, client) == seq
            &&& pubsub_rpc::entry_in(n, pubsub_rpc::resp_off(c, client, seq), seq) == Some(
                (block, len),
            )
            &&& forall|i: int|
                pubsub_rpc::pool_off(c) <= i < m.len() ==> #[trigger] n[i] == m[i]
        }),
{
    pubsub_rpc::lemma_client(c, client);
    pubsub_rpc::lemma_rings(c, client, seq);
    pubsub_rpc::lemma_pool(c, m.len());
}

/// A client that has taken all earlier responses takes the next one as the
/// server sent it.
pub proof fn law_response_is_received(
    c: PubSubRpcConfig,
    m: Seq<u8>,
    client: int,
    block: u32,
    v: types::ResponseView,
    correlation: u32,
    last: u64,
)
    requires
        fits(c, m),
        0 <= client < c.max_clients,
        block < c.block_count,
        last < u64::MAX,
        pubsub_rpc::response_fits(c, v),
        types::distinct_keys(v.headers),
    ensures
        ({
            let n = pubsub_rpc::after_respond(
                c,
                m,
                client,
                block,
                pubsub_rpc::sent_response(c, v),
                correlation,
                (last + 1) as u64,
            );
            let len = rpc_message::response_len(v) as u32;
            &&& pubsub_rpc::next_response(c, n, client, last) == Some((block, len))
            &&& pubsub_rpc::response_at(c, n, block, len) == Ok::<
                (types::ResponseView, u32),
                error::CrossbarErrorView,
            >((v, correlation))
        }),
{
    let seq = (last + 1) as u64;
    let w = pubsub_rpc::with_response_message(c, m, block, v, correlation);
    let len = rpc_message::response_len(v) as u32;
    let at = pubsub_rpc::client_off(client) + CE_RESP_NOTIFY;
    let d = pubsub_rpc::data_off(c, block as int);
    let p = pubsub_rpc::with_response(c, w, client, block, len, seq);
    let word = memory::wrapping_sum_u32(memory::u32_at(p, at), 1);
    let n = memory::put32(p, at, word);
    pubsub_rpc::lemma_block(c, block as int);
    lemma_response_message(c, m, block, v, correlation);
    lemma_response_entry(c, w, client, block, len, seq, word);
    assert(memory::bytes_at(n, d, len as int) =~= memory::bytes_at(w, d, len as int));
}

/// A response that was written in a block reads back from it.
proof fn lemma_response_message(
    c: PubSubRpcConfig,
    m: Seq<u8>,
    block: u32,
    v: types::ResponseView,
    correlation: u32,
)
    requires
        fits(c, m),
        block < c.block_count,
        pubsub_rpc::response_fits(c, v),
        types::distinct_keys(v.headers),
    ensures
        ({
            let w = pubsub_rpc::with_response_message(c, m, block, v, correlation);
            let len = rpc_message::response_len(v);
            &&& len <= pubsub_rpc::capacity_of(c)
            &&& w.len() == m.len()
            &&& rpc_message::response_in(
                memory::bytes_at(w, pubsub_rpc::data_off(c, block as int), len as int),
            ) == Ok::<(types::ResponseView, u32), error::CrossbarErrorView>((v, correlation))
        }),
{
    let d = pubsub_rpc::data_off(c, block as int);
    let tail = rpc_message::response_tail(v, correlation);
    let len = rpc_message::response_len(v);
    let gap = m.subrange(d + 2, d + 4);
    let max = pubsub_rpc::capacity_of(c) as nat;
    pubsub_rpc::lemma_block(c, block as int);
    rpc_message::lemma_response_len(v, correlation, max);
    rpc_message::law_response_message_round_trip(v, correlation, max, gap);
    lemma_two_puts(m, d, memory::le16(v.status), tail, gap);
}

proof fn lemma_two_puts(m: Seq<u8>, d: int, a: Seq<u8>, b: Seq<u8>, gap: Seq<u8>)
    requires
        0 <= d,
        a.len() == 2,
        d + 4 + b.len() <= m.len(),
        gap == m.subrange(d + 2, d + 4),
    ensures
        memory::bytes_at(
            memory::put(memory::put(m, d, a), d + 4, b),
            d,
            (4 + b.len()) as int,
        ) == a + gap + b,
{
    assert(memory::bytes_at(
        memory::put(memory::put(m, d, a), d + 4, b),
        d,
        (4 + b.len()) as int,
    ) =~= a + gap + b);
}

/// A request that a connected client sends is answered, in one turn of a server
/// that has seen all its earlier ones, as the router may answer it; and the
/// client, once it has taken all earlier responses, takes the answer.
pub proof fn law_request_is_answered<H: Handler<T>, T>(
    c: PubSubRpcConfig,
    router: Router<H>,
    m: Seq<u8>,
    client: int,
    block: u32,
    v: types::RequestView,
    correlation: u32,
    before: ClientState,
    n: Seq<u8>,
    after: ClientState,
)
    requires
        fits(c, m),
        0 <= client < c.max_clients,
        block < c.block_count,
        pubsub_rpc::active(m, client) != 0,
        before.known_active,
        before.last_req_seq < u64::MAX,
        before.resp_seq < u64::MAX,
        rpc_message::message_fault(
            rpc_message::request_used(v),
            v.headers,
            pubsub_rpc::capacity_of(c) as nat,
        ) is None,
        types::text_bytes(v.uri).len() <= 65535,
        types::distinct_keys(v.headers),
        pubsub_rpc::turn_is::<H, T>(
            c,
            router,
            client,
            sent(c, m, client, block, v, correlation, (before.last_req_seq + 1) as u64),
            before,
            n,
            after,
        ),
    ensures
        after.last_req_seq == before.last_req_seq + 1,
        after.resp_seq == before.resp_seq + 1,
        exists|req: Request, resp: types::ResponseView, held: Option<u32>|
            {
                &&& pubsub_rpc::is_received(req, v)
                &&& #[trigger] client::may_answer::<H, T>(router, req, resp, held)
                &&& pubsub_rpc::response_fits(c, resp) && types::distinct_keys(resp.headers)
                    ==> is_answered(c, n, client, block, resp, correlation, before.resp_seq)
            },
{
    let last = before.last_req_seq;
    let seq = (last + 1) as u64;
    let m1 = sent(c, m, client, block, v, correlation, seq);
    law_sent_request_is_taken(c, m, client, block, v, correlation, last);
    lemma_still_active(c, m, client, block, v, correlation, seq);
    let len = rpc_message::request_message(v, correlation).len() as u32;
    assert(pubsub_rpc::pending(c, m1, client, before) == Some((block, len)));
    let r = (before.resp_seq + 1) as u64;
    let (req, resp, held) = choose|req: Request, resp: types::ResponseView, held: Option<u32>|
        {
            &&& pubsub_rpc::is_received(req, v)
            &&& #[trigger] client::may_answer::<H, T>(router, req, resp, held)
            &&& n == pubsub_rpc::after_respond(
                c,
                pubsub_rpc::after_tried(c, m1, block, resp),
                client,
                block,
                pubsub_rpc::sent_response(c, resp),
                correlation,
                r,
            )
        };
    if pubsub_rpc::response_fits(c, resp) && types::distinct_keys(resp.headers) {
        law_response_is_received(c, m1, client, block, resp, correlation, before.resp_seq);
    }
    assert(client::may_answer::<H, T>(router, req, resp, held));
}

/// The next response of a client is in a block, as it was sent.
pub open spec fn is_answered(
    c: PubSubRpcConfig,
    m: Seq<u8>,
    client: int,
    block: u32,
    resp: types::ResponseView,
    correlation: u32,
    last: u64,
) -> bool {
    let len = rpc_message::response_len(resp) as u32;
    &&& pubsub_rpc::next_response(c, m, client, last) == Some((block, len))
    &&& pubsub_rpc::response_at(c, m, block, len) == Ok::<
        (types::ResponseView, u32),
        error::CrossbarErrorView,
    >((resp, correlation))
}

/// Sending a request leaves the segment as large, and the client connected.
proof fn lemma_still_active(
    c: PubSubRpcConfig,
    m: Seq<u8>,
    client: int,
    block: u32,
    v: types::RequestView,
    correlation: u32,
    seq: u64,
)
    requires
        fits(c, m),
        0 <= client < c.max_clients,
        block < c.block_count,
        rpc_message::message_fault(
            rpc_message::request_used(v),
            v.headers,
            pubsub_rpc::capacity_of(c) as nat,
        ) is None,
    ensures
        ({
            let n = sent(c, m, client, block, v, correlation, seq);
            &&& n.len() == m.len()
            &&& pubsub_rpc::active(n, client) == pubsub_rpc::active(m, client)
        }),
{
    let message = rpc_message::request_message(v, correlation);
    let w = memory::put(m, pubsub_rpc::data_off(c, block as int), message);
    let o = pubsub_rpc::client_off(client);
    pubsub_rpc::lemma_client(c, client);
    pubsub_rpc::lemma_rings(c, client, seq);
    pubsub_rpc::lemma_block(c, block as int);
    rpc_message::lemma_request_len(v, correlation, pubsub_rpc::capacity_of(c) as nat);
    lemma_data_keeps(c, m, block, 0, message);
    assert(w[o] == m[o] && w[o + 1] == m[o + 1] && w[o + 2] == m[o + 2] && w[o + 3] == m[o + 3]);
}

/// A call gives its block back: after the client has taken a block, sent its
/// request in it, got an answer in it and freed it, the free list is what it was
/// before.
#[verifier::rlimit(40)]
pub proof fn law_call_gives_the_block_back(
    c: PubSubRpcConfig,
    m: Seq<u8>,
    list: Seq<u32>,
    client: int,
    v: types::RequestView,
    resp: Option<types::ResponseView>,
    correlation: u32,
    seq: u64,
    resp_seq: u64,
)
    requires
        fits(c, m),
        0 <= client < c.max_clients,
        pubsub_rpc::pool_of(c).is_free_list(m, list),
        list.len() > 0,
        rpc_message::message_fault(
            rpc_message::request_used(v),
            v.headers,
            pubsub_rpc::capacity_of(c) as nat,
        ) is None,
        resp matches Some(w) ==> pubsub_rpc::response_fits(c, w),
    ensures
        ({
            let p = pubsub_rpc::pool_of(c);
            let block = list[0];
            let asked = sent(c, p.after_alloc(m), client, block, v, correlation, seq);
            let answered = pubsub_rpc::after_respond(
                c,
                asked,
                client,
                block,
                resp,
                correlation,
                resp_seq,
            );
            &&& p.alloc_choice(m) == Some(block)
            &&& p.is_free_list(p.after_free(answered, block), list)
        }),
{
    let p = pubsub_rpc::pool_of(c);
    let block = list[0];
    let rest = list.subrange(1, list.len() as int);
    pubsub_rpc::lemma_pool(c, m.len());
    pool::law_alloc_takes_the_head(p, m, list);
    let used = p.after_alloc(m);
    lemma_send_keeps_free_list(c, used, rest, client, block, v, correlation, seq);
    let asked = sent(c, used, client, block, v, correlation, seq);
    lemma_respond_keeps_free_list(c, asked, rest, client, block, resp, correlation, resp_seq);
    let answered = pubsub_rpc::after_respond(
        c,
        asked,
        client,
        block,
        resp,
        correlation,
        resp_seq,
    );
    pool::law_free_pushes_the_head(p, answered, rest, block);
    assert(seq![block] + rest =~= list);
}

/// Sending a request keeps the free list.
proof fn lemma_send_keeps_free_list(
    c: PubSubRpcConfig,
    m: Seq<u8>,
    list: Seq<u32>,
    client: int,
    block: u32,
    v: types::RequestView,
    correlation: u32,
    seq: u64,
)
    requires
        fits(c, m),
        0 <= client < c.max_clients,
        block < c.block_count,
        pubsub_rpc::pool_of(c).is_free_list(m, list),
        rpc_message::message_fault(
            rpc_message::request_used(v),
            v.headers,
            pubsub_rpc::capacity_of(c) as nat,
        ) is None,
    ensures
        sent(c, m, client, block, v, correlation, seq).len() == m.len(),
        pubsub_rpc::pool_of(c).is_free_list(
            sent(c, m, client, block, v, correlation, seq),
            list,
        ),
{
    let message = rpc_message::request_message(v, correlation);
    rpc_message::lemma_request_len(v, correlation, pubsub_rpc::capacity_of(c) as nat);
    lemma_message_keeps_free_list(c, m, list, client, block, message, seq);
}

/// Writing a message in a block, and putting it in a ring, keeps the free list.
proof fn lemma_message_keeps_free_list(
    c: PubSubRpcConfig,
    m: Seq<u8>,
    list: Seq<u32>,
    client: int,
    block: u32,
    message: Seq<u8>,
    seq: u64,
)
    requires
        fits(c, m),
        0 <= client < c.max_clients,
        block < c.block_count,
        pubsub_rpc::pool_of(c).is_free_list(m, list),
        message.len() <= pubsub_rpc::capacity_of(c),
    ensures
        ({
            let n = memory::put(m, pubsub_rpc::data_off(c, block as int), message);
            let o = pubsub_rpc::with_request(c, n, client, block, message.len() as u32, seq);
            o.len() == m.len() && pubsub_rpc::pool_of(c).is_free_list(o, list)
        }),
{
    let n = memory::put(m, pubsub_rpc::data_off(c, block as int), message);
    lemma_data_keeps_free_list(c, m, list, block, 0, message);
    lemma_request_keeps_free_list(c, n, list, client, block, message.len() as u32, seq);
}

/// Putting a request in its ring keeps the free list.
proof fn lemma_request_keeps_free_list(
    c: PubSubRpcConfig,
    m: Seq<u8>,
    list: Seq<u32>,
    client: int,
    block: u32,
    len: u32,
    seq: u64,
)
    requires
        fits(c, m),
        0 <= client < c.max_clients,
        block < c.block_count,
        pubsub_rpc::pool_of(c).is_free_list(m, list),
    ensures
        pubsub_rpc::with_request(c, m, client, block, len, seq).len() == m.len(),
        pubsub_rpc::pool_of(c).is_free_list(
            pubsub_rpc::with_request(c, m, client, block, len, seq),
            list,
        ),
{
    let n = pubsub_rpc::with_request(c, m, client, block, len, seq);
    pubsub_rpc::lemma_pool(c, m.len());
    lemma_request_entry(c, m, client, block, len, seq);
    lemma_request_keeps_head(c, m, client, block, len, seq);
    assert forall|i: int| GH_POOL_HEAD <= i < GH_POOL_HEAD + 8 implies m[i] == #[trigger] n[i] by {}
    segment_laws::lemma_free_list_kept(pubsub_rpc::pool_of(c), m, n, list);
}

/// Answering a request keeps the free list.
proof fn lemma_respond_keeps_free_list(
    c: PubSubRpcConfig,
    m: Seq<u8>,
    list: Seq<u32>,
    client: int,
    block: u32,
    resp: Option<types::ResponseView>,
    correlation: u32,
    seq: u64,
)
    requires
        fits(c, m),
        0 <= client < c.max_clients,
        block < c.block_count,
        pubsub_rpc::pool_of(c).is_free_list(m, list),
        resp matches Some(w) ==> pubsub_rpc::response_fits(c, w),
    ensures
        pubsub_rpc::after_respond(c, m, client, block, resp, correlation, seq).len() == m.len(),
        pubsub_rpc::pool_of(c).is_free_list(
            pubsub_rpc::after_respond(c, m, client, block, resp, correlation, seq),
            list,
        ),
{
    let d = pubsub_rpc::data_off(c, block as int);
    let (n, len) = match resp {
        Some(w) => (
            pubsub_rpc::with_response_message(c, m, block, w, correlation),
            rpc_message::response_len(w) as u32,
        ),
        None => (m, 0u32),
    };
    if let Some(w) = resp {
        rpc_message::lemma_response_len(w, correlation, pubsub_rpc::capacity_of(c) as nat);
        lemma_data_keeps_free_list(c, m, list, block, 0, memory::le16(w.status));
        lemma_data_keeps_free_list(
            c,
            memory::put(m, d, memory::le16(w.status)),
            list,
            block,
            4,
            rpc_message::response_tail(w, correlation),
        );
    }
    let at = pubsub_rpc::client_off(client) + CE_RESP_NOTIFY;
    let word = memory::wrapping_sum_u32(
        memory::u32_at(pubsub_rpc::with_response(c, n, client, block, len, seq), at),
        1,
    );
    lemma_response_keeps_free_list(c, n, list, client, block, len, seq, word);
}

/// Putting a response in its ring, and telling the client, keeps the free list.
proof fn lemma_response_keeps_free_list(
    c: PubSubRpcConfig,
    m: Seq<u8>,
    list: Seq<u32>,
    client: int,
    block: u32,
    len: u32,
    seq: u64,
    word: u32,
)
    requires
        fits(c, m),
        0 <= client < c.max_clients,
        block < c.block_count,
        pubsub_rpc::pool_of(c).is_free_list(m, list),
    ensures
        ({
            let n = memory::put32(
                pubsub_rpc::with_response(c, m, client, block, len, seq),
                pubsub_rpc::client_off(client) + CE_RESP_NOTIFY,
                word,
            );
            n.len() == m.len() && pubsub_rpc::pool_of(c).is_free_list(n, list)
        }),
{
    let n = memory::put32(
        pubsub_rpc::with_response(c, m, client, block, len, seq),
        pubsub_rpc::client_off(client) + CE_RESP_NOTIFY,
        word,
    );
    pubsub_rpc::lemma_pool(c, m.len());
    lemma_response_entry(c, m, client, block, len, seq, word);
    lemma_response_keeps_head(c, m, client, block, len, seq, word);
    assert forall|i: int| GH_POOL_HEAD <= i < GH_POOL_HEAD + 8 implies m[i] == #[trigger] n[i] by {}
    segment_laws::lemma_free_list_kept(pubsub_rpc::pool_of(c), m, n, list);
}

/// Writing in the data of a block keeps the free list.
proof fn lemma_data_keeps_free_list(
    c: PubSubRpcConfig,
    m: Seq<u8>,
    list: Seq<u32>,
    block: u32,
    at: int,
    b: Seq<u8>,
)
    requires
        fits(c, m),
        pubsub_rpc::pool_of(c).is_free_list(m, list),
        block < c.block_count,
        0 <= at,
        at + b.len() <= pubsub_rpc::capacity_of(c),
    ensures
        ({
            let n = memory::put(m, pubsub_rpc::data_off(c, block as int) + at, b);
            n.len() == m.len() && pubsub_rpc::pool_of(c).is_free_list(n, list)
        }),
{
    let p = pubsub_rpc::pool_of(c);
    pubsub_rpc::lemma_pool(c, m.len());
    pubsub_rpc::lemma_block(c, block as int);
    pool::law_block_writes_keep_free_list(
        p,
        m,
        list,
        block,
        pubsub_rpc::data_off(c, block as int) + at,
        b,
    );
}

/// Putting a request in its ring leaves the list head alone.
proof fn lemma_request_keeps_head(
    c: PubSubRpcConfig,
    m: Seq<u8>,
    client: int,
    block: u32,
    len: u32,
    seq: u64,
)
    requires
        fits(c, m),
        0 <= client < c.max_clients,
    ensures
        forall|i: int|
            0 <= i < HEADER_SIZE ==> #[trigger] pubsub_rpc::with_request(
                c,
                m,
                client,
                block,
                len,
                seq,
            )[i] == m[i],
{
    pubsub_rpc::lemma_client(c, client);
    pubsub_rpc::lemma_rings(c, client, seq);
    pubsub_rpc::lemma_parts(c);
}

/// Putting a response in its ring, and telling the client, leaves the list head
/// alone.
proof fn lemma_response_keeps_head(
    c: PubSubRpcConfig,
    m: Seq<u8>,
    client: int,
    block: u32,
    len: u32,
    seq: u64,
    word: u32,
)
    requires
        fits(c, m),
        0 <= client < c.max_clients,
    ensures
        forall|i: int|
            0 <= i < HEADER_SIZE ==> #[trigger] memory::put32(
                pubsub_rpc::with_response(c, m, client, block, len, seq),
                pubsub_rpc::client_off(client) + CE_RESP_NOTIFY,
                word,
            )[i] == m[i],
{
    pubsub_rpc::lemma_client(c, client);
    pubsub_rpc::lemma_rings(c, client, seq);
    pubsub_rpc::lemma_parts(c);
}

/// A request stays in its ring while fewer requests than the ring has entries
/// are sent after it, and those of other clients and all responses stay in
/// theirs.
#[verifier::rlimit(40)]
pub proof fn law_send_keeps_the_rings(
    c: PubSubRpcConfig,
    m: Seq<u8>,
    client: int,
    block: u32,
    len: u32,
    seq: u64,
    other: int,
    other_seq: u64,
)
    requires
        fits(c, m),
        0 <= client < c.max_clients,
        0 <= other < c.max_clients,
    ensures
        ({
            let n = pubsub_rpc::with_request(c, m, client, block, len, seq);
            let q = pubsub_rpc::req_off(c, other, other_seq);
            let p = pubsub_rpc::resp_off(c, other, other_seq);
            &&& other != client || 0 < seq - other_seq < c.ring_depth ==> pubsub_rpc::entry_in(
                n,
                q,
                other_seq,
            ) == pubsub_rpc::entry_in(m, q, other_seq)
            &&& pubsub_rpc::entry_in(n, p, other_seq) == pubsub_rpc::entry_in(m, p, other_seq)
            &&& pubsub_rpc::resp_seq(n, other) == pubsub_rpc::resp_seq(m, other)
            &&& other != client ==> pubsub_rpc::req_seq(n, other) == pubsub_rpc::req_seq(m, other)
        }),
{
    pubsub_rpc::lemma_client(c, client);
    pubsub_rpc::lemma_client(c, other);
    pubsub_rpc::lemma_rings(c, client, seq);
    pubsub_rpc::lemma_rings(c, other, other_seq);
    lemma_clients_apart(client, other);
    if other != client || 0 < seq - other_seq < c.ring_depth {
        lemma_entries_apart(c, client, seq, other, other_seq);
    }
}

/// A response stays in its ring while fewer responses than the ring has entries
/// are sent after it, and those to other clients and all requests stay in
/// theirs.
#[verifier::rlimit(40)]
pub proof fn law_respond_keeps_the_rings(
    c: PubSubRpcConfig,
    m: Seq<u8>,
    client: int,
    block: u32,
    len: u32,
    seq: u64,
    other: int,
    other_seq: u64,
)
    requires
        fits(c, m),
        0 <= client < c.max_clients,
        0 <= other < c.max_clients,
    ensures
        ({
            let n = pubsub_rpc::with_response(c, m, client, block, len, seq);
            let q = pubsub_rpc::req_off(c, other, other_seq);
            let p = pubsub_rpc::resp_off(c, other, other_seq);
            &&& other != client || 0 < seq - other_seq < c.ring_depth ==> pubsub_rpc::entry_in(
                n,
                p,
                other_seq,
            ) == pubsub_rpc::entry_in(m, p, other_seq)
            &&& pubsub_rpc::entry_in(n, q, other_seq) == pubsub_rpc::entry_in(m, q, other_seq)
            &&& pubsub_rpc::req_seq(n, other) == pubsub_rpc::req_seq(m, other)
            &&& other != client ==> pubsub_rpc::resp_seq(n, other) == pubsub_rpc::resp_seq(
                m,
                other,
            )
        }),
{
    pubsub_rpc::lemma_client(c, client);
    pubsub_rpc::lemma_client(c, other);
    pubsub_rpc::lemma_rings(c, client, seq);
    pubsub_rpc::lemma_rings(c, other, other_seq);
    lemma_clients_apart(client, other);
    if other != client || 0 < seq - other_seq < c.ring_depth {
        lemma_entries_apart(c, client, seq, other, other_seq);
    }
}

proof fn lemma_clients_apart(a: int, b: int)
    requires
        0 <= a,
        0 <= b,
    ensures
        a != b ==> pubsub_rpc::client_off(a) + CLIENT_ENTRY_SIZE <= pubsub_rpc::client_off(b)
            || pubsub_rpc::client_off(b) + CLIENT_ENTRY_SIZE <= pubsub_rpc::client_off(a),
{
}

/// Ring entries of different clients, or of numbers that are less than a ring
/// apart, do not overlap.
proof fn lemma_entries_apart(c: PubSubRpcConfig, a: int, s: u64, b: int, t: u64)
    requires
        c.ring_depth > 0,
        0 <= a,
        0 <= b,
        a != b || 0 < s - t < c.ring_depth,
    ensures
        pubsub_rpc::req_off(c, a, s) + RING_ENTRY_SIZE <= pubsub_rpc::req_off(c, b, t)
            || pubsub_rpc::req_off(c, b, t) + RING_ENTRY_SIZE <= pubsub_rpc::req_off(c, a, s),
        pubsub_rpc::resp_off(c, a, s) + RING_ENTRY_SIZE <= pubsub_rpc::resp_off(c, b, t)
            || pubsub_rpc::resp_off(c, b, t) + RING_ENTRY_SIZE <= pubsub_rpc::resp_off(c, a, s),
{
    if a == b {
        pubsub_laws::lemma_slots_differ(t as int, s as int, c.ring_depth as int);
    }
    cells::lemma_cells_apart(
        c.ring_depth as int,
        RING_ENTRY_SIZE as int,
        a,
        pubsub_rpc::slot_of(c, s),
        b,
        pubsub_rpc::slot_of(c, t),
    );
}

/// A sleeping client is told of a response: the word that it sleeps on changes.
pub proof fn law_response_ends_the_sleep(
    c: PubSubRpcConfig,
    m: Seq<u8>,
    client: int,
    block: u32,
    v: Option<types::ResponseView>,
    correlation: u32,
    seq: u64,
)
    requires
        fits(c, m),
        0 <= client < c.max_clients,
        block < c.block_count,
        v matches Some(w) ==> pubsub_rpc::response_fits(c, w),
    ensures
        memory::u32_at(
            pubsub_rpc::after_respond(c, m, client, block, v, correlation, seq),
            pubsub_rpc::client_off(client) + CE_RESP_NOTIFY,
        ) != memory::u32_at(m, pubsub_rpc::client_off(client) + CE_RESP_NOTIFY),
{
    let w = pubsub_rpc::client_off(client) + CE_RESP_NOTIFY;
    pubsub_rpc::lemma_client(c, client);
    pubsub_rpc::lemma_rings(c, client, seq);
    pubsub_rpc::lemma_block(c, block as int);
    if let Some(r) = v {
        lemma_data_keeps(c, m, block, 0, memory::le16(r.status));
        lemma_data_keeps(
            c,
            memory::put(m, pubsub_rpc::data_off(c, block as int), memory::le16(r.status)),
            block,
            4,
            rpc_message::response_tail(r, correlation),
        );
        let n = pubsub_rpc::with_response_message(c, m, block, r, correlation);
        assert(n[w] == m[w] && n[w + 1] == m[w + 1] && n[w + 2] == m[w + 2] && n[w + 3] == m[w
            + 3]);
    }
}

} // verus!
