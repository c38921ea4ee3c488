//! What two states of a party have in common, and what a result says of the value that it is
//! the result of.

use crate::error::{self, CrossbarError, CrossbarErrorView, Error};
use crate::handler::Handler;
use crate::memory::{self, SharedMemory};
use crate::platform::loan::{Loan, PinnedLoan};
use crate::platform::place::Place;
use crate::platform::pod_bus::{self, BusSubscriber, PodBus};
use crate::platform::registry::{self, DiscoveredTopic, Registry};
use crate::platform::shm::ShmPublisher;
use crate::platform::subscription::{RecvTurn, RecvWait, Subscription};
use crate::pod::Pod;
use crate::protocol::config::PubSubConfig;
use crate::protocol::header;
use crate::protocol::layout;
use crate::protocol::reading::{self, EntryLook, PinnedLook};
use crate::protocol::region::Region;
use crate::router::Router;
use crate::text;
use crate::transport::client;
use crate::transport::headers;
use crate::transport::shm::cells;
use crate::transport::shm::pool_pubsub::{self, PoolRegion, ShmPoolLoan};
use crate::transport::shm::pubsub::{self, ShmLoan, ShmSubscription};
use crate::transport::shm::pubsub_rpc::{self, ClientState, PubSubRpcClient, PubSubRpcConfig};
use crate::transport::shm::region::{self, ShmConfig, ShmRegion};
use crate::transport::shm::server;
use crate::transport::shm::service;
use crate::types::{
    Body, IntoBody, Method, Pairs, Request, RequestView, Response, ResponseView, StringMap,
};
use vstd::prelude::*;

verus! {

/// Whatever is done with a segment, its parameters and its length stay what they were.
pub proof fn law_segments_stay<M: SharedMemory>(
    a: Region<M>,
    b: Region<M>,
    c: PoolRegion<M>,
    d: PoolRegion<M>,
    e: ShmRegion<M>,
    f: ShmRegion<M>,
)
    ensures
        a.same_segment(&b) ==> b.config == a.config && b.mem.image().len() == a.mem.image().len(),
        c.same_segment(&d) ==> d.config == c.config && d.mem.image().len() == c.mem.image().len(),
        e.same_segment(&f) ==> f.config == e.config && f.slot_count == e.slot_count
            && f.block_count == e.block_count && f.block_size == e.block_size
            && f.mem.image().len() == e.mem.image().len(),
{
}

/// Whatever is done with a loan, its block, its topic and its room stay what they were.
pub proof fn law_loans_stay<M: SharedMemory>(
    a: Loan<M>,
    b: Loan<M>,
    c: PinnedLoan<M>,
    d: PinnedLoan<M>,
    e: ShmPoolLoan<M>,
    f: ShmPoolLoan<M>,
    g: ShmLoan<M>,
    h: ShmLoan<M>,
)
    ensures
        a.same_loan(&b) ==> b.block_idx == a.block_idx && b.topic_idx == a.topic_idx && b.capacity
            == a.capacity && b.single_publisher == a.single_publisher,
        c.same_loan(&d) ==> d.block_idx == c.block_idx && d.topic_idx == c.topic_idx && d.capacity
            == c.capacity,
        e.same_loan(&f) ==> f.block_idx == e.block_idx && f.topic_idx == e.topic_idx && f.seq
            == e.seq,
        g.same_loan(&h) ==> h.config == g.config && h.topic_idx == g.topic_idx && h.seq == g.seq,
{
}

/// Whatever a party does, it stays the same party: on the same segment, with the same topic,
/// slot, name or number.
pub proof fn law_parties_stay<T: Pod, M: SharedMemory>(
    a: PodBus<T, M>,
    b: PodBus<T, M>,
    c: BusSubscriber<T, M>,
    d: BusSubscriber<T, M>,
    e: Registry<M>,
    f: Registry<M>,
    g: Subscription<M>,
    h: Subscription<M>,
    i: ShmPublisher<M>,
    j: ShmPublisher<M>,
    k: PubSubRpcClient<M>,
    l: PubSubRpcClient<M>,
    m: ShmSubscription<M>,
    n: ShmSubscription<M>,
)
    ensures
        a.same_bus(&b) ==> b.ring_size == a.ring_size && b.watermark == a.watermark && b.name
            == a.name,
        c.same_subscriber(&d) ==> d.ring_size == c.ring_size && d.bounded == c.bounded
            && d.slot_index == c.slot_index,
        e.same_registry(&f) ==> f.path == e.path,
        g.same_stream(&h) ==> h.topic_idx == g.topic_idx && h.type_size == g.type_size
            && h.region.config == g.region.config,
        i.same_publisher(&j) ==> j.id == i.id && j.is_owner == i.is_owner && j.region.config
            == i.region.config,
        k.same_client(&l) ==> l.client_idx == k.client_idx && l.next_req_seq == k.next_req_seq
            && l.next_correlation == k.next_correlation && l.request_count == k.request_count
            && l.stale_timeout_us == k.stale_timeout_us,
        m.same_stream(&n) ==> n.topic_idx == m.topic_idx && n.config == m.config,
        k.is_new(k.stale_timeout_us) ==> k.next_req_seq == 0 && k.last_resp_seq == 0
            && k.next_correlation == 0 && k.request_count == 0,
{
}

/// The path of a file is its name behind what depends on the place: two names in one place
/// have different paths.
pub proof fn law_paths_tell_names_apart(
    place: Place,
    linux: Seq<char>,
    windows: Seq<char>,
    other: Seq<char>,
    a: Seq<char>,
    b: Seq<char>,
)
    ensures
        place.path_of(linux, windows, other, a) == place.path_of(linux, windows, other, b) ==> a
            == b,
        a.is_suffix_of(place.path_of(linux, windows, other, a)),
        place is Linux ==> linux.is_prefix_of(place.path_of(linux, windows, other, a)),
        place is Other ==> other.is_prefix_of(place.path_of(linux, windows, other, a)),
        place matches Place::Windows(dir) ==> (dir@ + windows).is_prefix_of(
            place.path_of(linux, windows, other, a),
        ),
{
    let p = place.path_of(linux, windows, other, a);
    let q = place.path_of(linux, windows, other, b);
    let front = match place {
        Place::Linux => linux,
        Place::Windows(dir) => dir@ + windows,
        Place::Other => other,
    };
    assert(p =~= front + a);
    assert(q =~= front + b);
    assert(p.subrange(0, front.len() as int) =~= front);
    assert(p.subrange(p.len() - a.len(), p.len() as int) =~= a);
    if p == q {
        assert(a.len() == b.len());
        assert(a =~= p.subrange(front.len() as int, p.len() as int));
        assert(b =~= q.subrange(front.len() as int, q.len() as int));
    }
}

/// A topic that was found is told with its region, its URI, its process and its time.
pub proof fn law_what_is_told_of_a_topic(d: DiscoveredTopic)
    ensures
        registry::topic_view(d).0 == d.region@,
        registry::topic_view(d).1 == d.uri@,
        registry::topic_view(d).2 == d.pid,
        registry::topic_view(d).3 == d.timestamp_us,
{
}

/// A plain request has the method, the URI and the body that it was made with, and no headers.
pub proof fn law_plain_request(req: Request, method: Method, uri: Seq<char>, body: Seq<u8>)
    requires
        client::is_plain(req, method, uri, body),
    ensures
        req@ == (RequestView { method, uri, headers: Seq::empty(), body }),
        req.wf(),
{
    assert(req.headers.pairs() =~= Seq::<(Seq<char>, Seq<char>)>::empty());
}

/// What is told of an answer is the answer: the response, or the error; and of several
/// requests every one is told of, in their order, each with its own number.
pub proof fn law_outcomes_are_told(
    r: Result<Response, CrossbarError>,
    expected: Result<ResponseView, CrossbarErrorView>,
    done: Seq<(u64, Result<Response, CrossbarError>)>,
    all: service::Outcomes,
    i: int,
)
    ensures
        service::outcome_is(r, expected) ==> match (r, expected) {
            (Ok(a), Ok(b)) => a@ == b,
            (Err(a), Err(b)) => a@ == b,
            _ => false,
        },
        service::outcomes_are(done, all) ==> done.len() == all.len(),
        service::outcomes_are(done, all) && 0 <= i < done.len() ==> done[i].0 == all[i].0 && (
        done[i].1 is Ok <==> all[i].1 is Ok),
        service::outcomes_are(done, all) && 0 <= i < done.len() && all[i].1 is Ok ==> done[i].1->Ok_0@
            == all[i].1->Ok_0,
        service::outcomes_are(done, all) && 0 <= i < done.len() && all[i].1 is Err ==> done[i].1->Err_0@
            == all[i].1->Err_0,
{
}

/// Headers that were read are the headers that stand there, and a fault in them is reported
/// as one of the input.
pub proof fn law_headers_are_told(
    r: Result<StringMap, CrossbarError>,
    expected: Result<Pairs, Seq<char>>,
)
    requires
        headers::headers_read(r, expected),
    ensures
        match (r, expected) {
            (Ok(map), Ok(p)) => map.pairs() == p && map.wf(),
            (Err(e), Err(m)) => e@ == CrossbarErrorView::Io(m),
            _ => false,
        },
{
}

/// In a round of a server every slot has its turn, in their order, and the round has found
/// work exactly if some slot had a request in its turn.
pub proof fn law_every_slot_has_its_turn<H: Handler<T>, T, F: Fn() -> u64>(
    c: ShmConfig,
    router: Router<H>,
    clock: F,
    m: Seq<u8>,
    n: Seq<u8>,
    found: bool,
)
    requires
        server::served::<H, T, F>(c, router, clock, m, n, found),
    ensures
        exists|nows: Seq<u64>, ms: Seq<Seq<u8>>|
            #[trigger] is_round::<H, T>(c, router, nows, ms, found) && ms[0] == m
                && ms[c.slot_count as int] == n,
{
    let (nows, ms) = choose|nows: Seq<u64>, ms: Seq<Seq<u8>>|
        {
            &&& #[trigger] server::round_is::<H, T>(
                c,
                router,
                nows,
                ms,
                found,
                c.slot_count as int,
            )
            &&& server::told(clock, nows)
            &&& ms[0] == m
            &&& ms.last() == n
        };
    if found {
        let i = choose|i: int|
            0 <= i < c.slot_count && #[trigger] region::state_of(ms[i], i) == region::REQUEST_READY;
        assert(is_ready(ms[i], i));
    }
    if exists|i: int| 0 <= i < c.slot_count && #[trigger] is_ready(ms[i], i) {
        let i = choose|i: int| 0 <= i < c.slot_count && #[trigger] is_ready(ms[i], i);
        assert(region::state_of(ms[i], i) == region::REQUEST_READY);
    }
    assert(is_round::<H, T>(c, router, nows, ms, found));
}

/// A slot has a request that is ready.
pub open spec fn is_ready(m: Seq<u8>, slot: int) -> bool {
    crate::memory::u32_at(m, 128 + slot * 64) == 1
}

/// The images between the turns of a round.
pub open spec fn is_round<H: Handler<T>, T>(
    c: ShmConfig,
    router: Router<H>,
    nows: Seq<u64>,
    ms: Seq<Seq<u8>>,
    found: bool,
) -> bool {
    &&& ms.len() == c.slot_count + 1
    &&& forall|i: int|
        0 <= i < c.slot_count ==> #[trigger] server::turn_is::<H, T>(
            c,
            router,
            i,
            nows[i],
            ms[i],
            ms[i + 1],
        )
    &&& found <==> exists|i: int| 0 <= i < c.slot_count && #[trigger] is_ready(ms[i], i)
}

/// A slot without a request that is ready is left alone in its turn, and so is a client of the
/// ring exchange that has announced nothing new, or that is not there.
pub proof fn law_idle_turns_change_nothing<H: Handler<T>, T>(
    c: ShmConfig,
    d: PubSubRpcConfig,
    router: Router<H>,
    slot: int,
    now: u64,
    m: Seq<u8>,
    n: Seq<u8>,
    before: ClientState,
    after: ClientState,
)
    ensures
        server::turn_is::<H, T>(c, router, slot, now, m, n) && !is_ready(m, slot) ==> n == m,
        pubsub_rpc::turn_is::<H, T>(d, router, slot, m, before, n, after) && memory::u32_at(
            m,
            128 + slot * 64,
        ) == 0 ==> n == m && !after.known_active,
        pubsub_rpc::turn_is::<H, T>(d, router, slot, m, before, n, after) && before.known_active
            && memory::u64_at(m, 128 + slot * 64 + 16) <= before.last_req_seq && memory::u32_at(
            m,
            128 + slot * 64,
        ) != 0 ==> n == m && after == before,
{
}

/// In a round of a server of the ring exchange every client has its turn, in their order. The
/// round has found work exactly if some client had announced a request; and those are woken
/// who had, and who sleep.
pub proof fn law_every_client_has_its_turn<H: Handler<T>, T>(
    c: PubSubRpcConfig,
    router: Router<H>,
    m: Seq<u8>,
    before: Seq<ClientState>,
    n: Seq<u8>,
    after: Seq<ClientState>,
    found: bool,
    wake: Seq<u32>,
)
    requires
        pubsub_rpc::served::<H, T>(c, router, m, before, n, after, found, wake),
    ensures
        exists|ms: Seq<Seq<u8>>|
            #[trigger] is_client_round::<H, T>(c, router, ms, before, after) && ms[0] == m
                && ms[before.len() as int] == n && (found <==> exists|i: int|
                0 <= i < before.len() && #[trigger] pubsub_rpc::pending(c, ms[i], i, before[i])
                    is Some) && forall|i: int|
                0 <= i < before.len() ==> (#[trigger] wake.contains(i as u32)
                    <==> pubsub_rpc::pending(c, ms[i], i, before[i]) is Some && memory::u32_at(
                    ms[i + 1],
                    128 + i * 64 + 36,
                ) > 0),
{
    let ms = choose|ms: Seq<Seq<u8>>|
        {
            &&& #[trigger] pubsub_rpc::round_is::<H, T>(
                c,
                router,
                ms,
                before,
                after,
                found,
                wake,
                before.len() as int,
            )
            &&& ms[0] == m
            &&& ms.last() == n
        };
    assert(is_client_round::<H, T>(c, router, ms, before, after));
}

/// The images between the turns of a round of the ring exchange.
pub open spec fn is_client_round<H: Handler<T>, T>(
    c: PubSubRpcConfig,
    router: Router<H>,
    ms: Seq<Seq<u8>>,
    before: Seq<ClientState>,
    after: Seq<ClientState>,
) -> bool {
    &&& ms.len() == before.len() + 1
    &&& forall|i: int|
        0 <= i < before.len() ==> #[trigger] pubsub_rpc::turn_is::<H, T>(
            c,
            router,
            i,
            ms[i],
            before[i],
            ms[i + 1],
            after[i],
        )
}

/// The number of the newest sample of the topic of a loan.
pub open spec fn newest_before<M: SharedMemory>(g: ShmLoan<M>) -> u64 {
    crate::memory::u64_at(g.mem.image(), 128 + g.topic_idx * 128 + 8)
}

/// A sample that is lent gets the number behind that of the newest one.
pub proof fn law_number_of_a_loan<M: SharedMemory>(g: ShmLoan<M>)
    requires
        g.is_next(),
    ensures
        g.seq == (newest_before(g) + 1) % 0x1_0000_0000_0000_0000,
{
}

/// A fault in a header, or in the parameters of a segment, is reported as an invalid region,
/// or as a size that overflows where that is the fault.
pub proof fn law_faults_are_reported(e: Error, f: header::HeaderFault, g: header::ConfigFault)
    ensures
        header::reports_header_fault(e, f) ==> if f is Overflow {
            e is RegionSizeOverflow
        } else {
            e is InvalidRegion
        },
        header::reports_config_fault(e, g) ==> if g is Overflow {
            e is RegionSizeOverflow
        } else {
            e is InvalidRegion
        },
{
}

/// A topic that is not there, or whose entry is broken, is an invalid region; the URI that was
/// asked for is told at the end of the text.
pub proof fn law_missing_topics_are_reported(uri: Seq<char>, topic: int, len: u8)
    ensures
        pubsub::missing_topic(uri) matches CrossbarErrorView::ShmInvalidRegion(t)
            && uri.is_suffix_of(t),
        pubsub::unregistered(uri) matches CrossbarErrorView::ShmInvalidRegion(t)
            && uri.is_suffix_of(t),
        pubsub::broken_topic(topic, len) is ShmInvalidRegion,
{
    let a = "topic not found: "@ + uri;
    assert(a.subrange(a.len() - uri.len(), a.len() as int) =~= uri);
    let b = "topic not registered: "@ + uri;
    assert(b.subrange(b.len() - uri.len(), b.len() as int) =~= uri);
}

/// A pattern taken apart accepts a URI exactly if the URI begins with what is asked for, and
/// goes on behind that only if the pattern ended in a star.
pub proof fn law_what_a_pattern_accepts(p: registry::Pattern, uri: Seq<char>)
    ensures
        p.accepts(uri) <==> {
            &&& uri.len() >= p.prefix@.len()
            &&& forall|k: int| 0 <= k < p.prefix@.len() ==> #[trigger] uri[k] == p.prefix@[k]
            &&& uri.len() > p.prefix@.len() ==> p.wildcard
        },
{
    let f = p.prefix@;
    let n = f.len() as int;
    if uri.len() >= n && (forall|k: int| 0 <= k < n ==> #[trigger] uri[k] == f[k]) {
        assert(f =~= uri.subrange(0, n));
        if uri.len() == n {
            assert(uri =~= f);
        }
    }
    if f.is_prefix_of(uri) {
        assert forall|k: int| 0 <= k < n implies #[trigger] uri[k] == f[k] by {
            assert(uri.subrange(0, n)[k] == f[k]);
        }
    }
}

/// A receiver finds its publisher dead exactly if the clock cannot be read, or if more time
/// than the timeout has passed since the heartbeat.
pub proof fn law_receiver_finds_its_publisher_dead<M: SharedMemory>(
    s: Subscription<M>,
    now: Option<u64>,
)
    ensures
        s.finds_dead(now) <==> match now {
            None => true,
            Some(t) => t > memory::u64_at(s.region.mem.image(), 40)
                + s.region.config.stale_timeout_us,
        },
{
}

/// The place of a character is the first one where it stands.
pub proof fn law_first_place_of_a_character(s: Seq<char>, c: char, from: int)
    requires
        0 <= from,
    ensures
        match text::find_char(s, c, from) {
            Some(i) => {
                &&& from <= i < s.len()
                &&& s[i] == c
                &&& forall|k: int| from <= k < i ==> #[trigger] s[k] != c
            },
            None => forall|k: int| from <= k < s.len() ==> #[trigger] s[k] != c,
        },
    decreases s.len() - from,
{
    if from < s.len() {
        law_first_place_of_a_character(s, c, from + 1);
    }
}

/// Bytes that are UTF-8 are shown as the text that they are.
pub proof fn law_text_is_shown(s: Seq<char>)
    ensures
        text::shown_text(vstd::utf8::encode_utf8(s)) == s,
{
    vstd::utf8::encode_utf8_valid_utf8(s);
    vstd::utf8::encode_utf8_decode_utf8(s);
}

/// What was seen of an entry counts exactly if its number was the one that was looked for,
/// before and after, and what it names is there: then it is the block and the length that
/// were seen.
pub proof fn law_when_a_sight_counts(
    wanted: u64,
    look: EntryLook,
    blocks: u32,
    capacity: int,
    len: u32,
)
    ensures
        ({
            let whole = look.before == wanted && look.after == wanted;
            &&& reading::entry_seen(wanted, look, blocks, capacity) == if whole && look.block
                < blocks && look.len <= capacity {
                Some((look.block, look.len))
            } else {
                None
            }
            &&& reading::length_seen(wanted, look.before, len, look.after, capacity) == if whole
                && len <= capacity {
                Some(len)
            } else {
                None
            }
        }),
{
}

/// What was seen of a pinned sample counts exactly if there was one, with a number above the
/// last one, a block that there is and a length that fits, and if it was still the same
/// afterwards.
pub proof fn law_when_a_pinned_sight_counts(
    last: u64,
    look: PinnedLook,
    blocks: u32,
    capacity: int,
)
    ensures
        ({
            let number = look.before / 0x1_0000_0000;
            let len = look.before % 0x1_0000_0000;
            reading::pinned_seen(last, look, blocks, capacity) == if look.before != 0
                && look.after == look.before && number > last && look.block < blocks && len
                <= capacity {
                Some((number as u32, len as u32))
            } else {
                None
            }
        }),
{
}

/// A turn of a receiver that brings nothing leaves it where it was: it gives up only in every
/// 1024th iteration, because the clock cannot be read or because the publisher is dead, and
/// sleeps exactly if it is to.
pub proof fn law_turn_of_a_receiver<M: SharedMemory, G>(
    before: Subscription<M>,
    after: Subscription<M>,
    wait: RecvWait,
    wait_after: RecvWait,
    now: Option<u64>,
    r: RecvTurn<G>,
)
    requires
        before.turned(&after, wait, wait_after, now, r),
    ensures
        r !is Got ==> after.last_seq == before.last_seq,
        after.last_seq >= before.last_seq,
        wait_after.strategy == wait.strategy,
        wait_after.poll_ms == wait.poll_ms,
        r is Sleep ==> wait.sleeps() && r->millis == wait.poll_ms && wait_after.iter == wait.iter,
        wait.sleeps() ==> r is Sleep || r is Got,
        r matches RecvTurn::Failed(e) ==> wait_after.iter % 1024 == 0 && if now is None {
            e is ClockError
        } else {
            e is PublisherDead
        },
        r is Again && wait.iter < u32::MAX ==> wait_after.iter == wait.iter + 1,
{
}

/// A server knows nothing of a client at first.
pub proof fn law_unknown_client()
    ensures
        !pubsub_rpc::unknown_client().known_active,
        pubsub_rpc::unknown_client().last_req_seq == 0,
        pubsub_rpc::unknown_client().resp_seq == 0,
{
}

/// Where the parts of a segment are.
pub proof fn law_where_the_parts_of_a_segment_are(c: PubSubConfig, topic: int, slot: int)
    ensures
        layout::topic_off(topic) == 128 + topic * 128,
        layout::ring_base_spec(c) == 128 + c.max_topics * 128,
        layout::ring_off(c, topic, slot) == 128 + c.max_topics * 128 + (topic * c.ring_depth
            + slot) * 16,
        layout::pool_off(c) == 128 + c.max_topics * 128 + c.max_topics * c.ring_depth * 16,
        layout::region_size(c) == 128 + c.max_topics * 128 + c.max_topics * c.ring_depth * 16
            + c.block_count * c.block_size,
{
}

/// The cells of a table lie one behind the other, row by row.
pub proof fn law_cells_of_a_table(rows: int, cols: int, size: int, row: int, col: int)
    ensures
        cells::cell(cols, size, 0, 0) == 0,
        cells::cell(cols, size, row, col + 1) == cells::cell(cols, size, row, col) + size,
        cells::cell(cols, size, row, cols) == cells::cell(cols, size, row + 1, 0),
        cells::table_size(rows, cols, size) == cells::cell(cols, size, rows, 0),
{
    assert((row * cols + (col + 1)) * size == (row * cols + col) * size + size)
        by (nonlinear_arith);
    assert((row * cols + cols) * size == ((row + 1) * cols + 0) * size) by (nonlinear_arith);
    assert(rows * cols * size == (rows * cols + 0) * size) by (nonlinear_arith);
    assert((0 * cols + 0) * size == 0) by (nonlinear_arith);
}

/// The number of sleepers of a topic, and the process of a subscriber, are what stands there.
pub proof fn law_sleepers_and_processes(m: Seq<u8>, i: int)
    ensures
        crate::protocol::region::waiters(m, i) == memory::u32_at(m, 128 + i * 128 + 16),
        pool_pubsub::waiters(m, i) == memory::u32_at(m, 128 + i * 128 + 92),
        pubsub_rpc::sleepers(m, i) == memory::u32_at(m, 128 + i * 64 + 36),
        pod_bus::sub_pid(m, i) == memory::u32_at(m, 64 + i * 16 + 4),
        pod_bus::sub_state(m, i) == memory::u32_at(m, 64 + i * 16),
        pod_bus::sub_cursor(m, i) == memory::u64_at(m, 64 + i * 16 + 8),
        pod_bus::published(m) == memory::u64_at(m, 32),
{
}

/// Differences of wide numbers wrap around where numbers begin.
pub proof fn law_wide_numbers_wrap_around(a: u64, b: u64)
    ensures
        pod_bus::wrapping_difference_u64(a, b) == (a - b) % 0x1_0000_0000_0000_0000,
{
}

/// A body that was read from a segment holds on to its block, and nothing else that a body is
/// made of holds on to any.
pub proof fn law_which_bodies_hold_a_block(b: Body, v: Vec<u8>, part: &[u8], t: &str, s: String)
    ensures
        IntoBody::body_block(b) == match b {
            Body::Mmap(g) => Some(g.block_idx),
            _ => None,
        },
        IntoBody::body_block(v) is None,
        IntoBody::body_block(part) is None,
        IntoBody::body_block(t) is None,
        IntoBody::body_block(s) is None,
{
}

/// A fault in the header of a bus is reported as an invalid region.
pub proof fn law_bus_faults_are_reported(e: Error, f: pod_bus::BusFault)
    ensures
        pod_bus::reports_bus_fault(e, f) ==> e is InvalidRegion,
{
}

/// The text of an error ends with the text that the error carries, and tells its numbers and
/// names.
pub proof fn law_texts_of_errors(m: String, size: usize, capacity: usize)
    ensures
        m@.is_suffix_of(error::error_text(Error::Io(m))),
        m@.is_suffix_of(error::error_text(Error::InvalidRegion(m))),
        m@.is_suffix_of(error::error_text(Error::RegionCorrupted(m))),
        has_part(error::error_text(Error::TopicNotFound(m)), m@),
        has_part(error::error_text(Error::LockContention(m)), m@),
        has_part(error::error_text(Error::SegmentNameInvalid(m)), m@),
        has_part(
            error::error_text(Error::DataTooLarge { size, capacity }),
            text::decimal(size as nat),
        ),
        has_part(
            error::error_text(Error::DataTooLarge { size, capacity }),
            text::decimal(capacity as nat),
        ),
        has_part(
            error::error_text(Error::UriTooLong { len: size, max: capacity }),
            text::decimal(size as nat),
        ),
        has_part(
            error::error_text(Error::UriTooLong { len: size, max: capacity }),
            text::decimal(capacity as nat),
        ),
{
    lemma_part("I/O error: "@, m@, Seq::empty());
    lemma_part("invalid shared-memory region: "@, m@, Seq::empty());
    lemma_part("shared-memory region corrupted: "@, m@, Seq::empty());
    lemma_part("topic '"@, m@, "' not found"@);
    lemma_part("pub/sub region '"@, m@, "' is already active (lock held)"@);
    lemma_part(
        "invalid segment name '"@,
        m@,
        "': must be non-empty and contain no '/', '\\', '..', or null bytes"@,
    );
    let a = text::decimal(size as nat);
    let b = text::decimal(capacity as nat);
    let t = error::error_text(Error::DataTooLarge { size, capacity });
    lemma_part("data ("@, a, ") exceeds block data capacity ("@ + b + ")"@);
    assert(t =~= "data ("@ + a + (") exceeds block data capacity ("@ + b + ")"@));
    lemma_part("data ("@ + a + ") exceeds block data capacity ("@, b, ")"@);
    let u = error::error_text(Error::UriTooLong { len: size, max: capacity });
    lemma_part("topic URI too long ("@, a, " > "@ + b + ")"@);
    assert(u =~= "topic URI too long ("@ + a + (" > "@ + b + ")"@));
    lemma_part("topic URI too long ("@ + a + " > "@, b, ")"@);
}

/// A text has another one in it.
pub open spec fn has_part(t: Seq<char>, part: Seq<char>) -> bool {
    exists|i: int|
        0 <= i && i + part.len() <= t.len() && #[trigger] t.subrange(i, i + part.len()) == part
}

proof fn lemma_part(a: Seq<char>, b: Seq<char>, c: Seq<char>)
    ensures
        has_part(a + b + c, b),
        b.is_suffix_of(a + b),
{
    let t = a + b + c;
    assert(t.subrange(a.len() as int, a.len() as int + b.len()) =~= b);
    let s = a + b;
    assert(s.subrange(s.len() - b.len(), s.len() as int) =~= b);
}

} // verus!
