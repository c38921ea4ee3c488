//! What the registry is for, stated over the bytes of its entries: which topics a search
//! finds, what registering adds, and what is dropped.

use crate::memory;
use crate::platform::registry::{
    self, DISCOVER_STALE_US, REG_ENTRY_SIZE, REG_HEADER_SIZE, REG_MAX_ENTRIES, REG_TOTAL_SIZE,
    RE_ACTIVE, RE_PID, RE_REGION_NAME, RE_REGION_NAME_MAX, RE_STATE_ACTIVE, RE_STATE_FREE,
    RE_TIMESTAMP, RE_TOPIC_URI, RE_TOPIC_URI_MAX,
};
use vstd::prelude::*;

verus! {

broadcast use crate::memory::group_memory;

/// Where an entry lies.
pub open spec fn at(i: int) -> int {
    REG_HEADER_SIZE + i * REG_ENTRY_SIZE
}

/// The state word of an entry.
pub open spec fn state(m: Seq<u8>, i: int) -> u32 {
    memory::u32_at(m, at(i) + RE_ACTIVE)
}

/// The time in an entry.
pub open spec fn time(m: Seq<u8>, i: int) -> u64 {
    memory::u64_at(m, at(i) + RE_TIMESTAMP)
}

/// A field holds a text: its bytes, none of them zero, and a zero behind them.
pub open spec fn holds_text(m: Seq<u8>, off: int, len: int, s: Seq<char>) -> bool {
    let b = vstd::utf8::encode_utf8(s);
    &&& b.len() < len
    &&& forall|k: int| 0 <= k < b.len() ==> #[trigger] b[k] != 0 && m[off + k] == b[k]
    &&& m[off + b.len()] == 0
}

/// A topic stands in an entry: the entry is in use, and holds the process, the time, and
/// both names.
pub open spec fn stands(
    m: Seq<u8>,
    i: int,
    region: Seq<char>,
    uri: Seq<char>,
    pid: u32,
    t: u64,
) -> bool {
    &&& 0 <= i < REG_MAX_ENTRIES
    &&& state(m, i) == RE_STATE_ACTIVE
    &&& memory::u32_at(m, at(i) + RE_PID) == pid
    &&& time(m, i) == t
    &&& holds_text(m, at(i) + RE_REGION_NAME, RE_REGION_NAME_MAX as int, region)
    &&& holds_text(m, at(i) + RE_TOPIC_URI, RE_TOPIC_URI_MAX as int, uri)
}

/// A URI is the one asked for, or begins with what is asked for in front of a star.
pub open spec fn asked_for(pattern: Seq<char>, uri: Seq<char>) -> bool {
    ||| uri == pattern && !(pattern.len() > 0 && pattern[pattern.len() - 1] == '*')
    ||| {
        &&& pattern.len() > 0
        &&& pattern[pattern.len() - 1] == '*'
        &&& uri.len() >= pattern.len() - 1
        &&& forall|k: int| 0 <= k < pattern.len() - 1 ==> #[trigger] uri[k] == pattern[k]
    }
}

#[verifier::rlimit(50)]
proof fn lemma_asked_for(pattern: Seq<char>, uri: Seq<char>)
    ensures
        asked_for(pattern, uri) == registry::pattern_matches(pattern, uri),
{
    if pattern.len() > 0 && pattern.last() == '*' {
        let p = pattern.drop_last();
        if asked_for(pattern, uri) {
            assert(p =~= uri.subrange(0, p.len() as int));
        }
        if p.is_prefix_of(uri) {
            assert forall|k: int| 0 <= k < p.len() implies #[trigger] uri[k] == pattern[k] by {
                assert(p[k] == uri.subrange(0, p.len() as int)[k]);
            }
        }
    }
}

#[verifier::rlimit(50)]
proof fn lemma_field(m: Seq<u8>, off: int, len: int, s: Seq<char>)
    requires
        0 <= off,
        off + len <= m.len(),
        holds_text(m, off, len, s),
    ensures
        registry::fixed_text(memory::bytes_at(m, off, len)) == s,
{
    let b = vstd::utf8::encode_utf8(s);
    let p = memory::bytes_at(m, off, len);
    assert forall|i: int| 0 <= i < b.len() implies p[i] == #[trigger] b[i] && b[i] != 0 by {
        assert(p[i] == m[off + i]);
    }
    assert(p[b.len() as int] == m[off + b.len()]);
    registry::lemma_up_to_zero(p, b);
    vstd::utf8::encode_utf8_valid_utf8(s);
    vstd::utf8::encode_utf8_decode_utf8(s);
}

/// What stands in an entry is what is read of it.
proof fn lemma_stands(
    m: Seq<u8>,
    i: int,
    region: Seq<char>,
    uri: Seq<char>,
    pid: u32,
    t: u64,
)
    requires
        REG_TOTAL_SIZE <= m.len(),
        stands(m, i, region, uri, pid, t),
    ensures
        registry::entry_is(m, i, region, uri, pid),
        registry::entry_time(m, i) == t,
{
    lemma_field(m, at(i) + RE_REGION_NAME, RE_REGION_NAME_MAX as int, region);
    lemma_field(m, at(i) + RE_TOPIC_URI, RE_TOPIC_URI_MAX as int, uri);
}

/// What a search finds is what stands in the registry and was asked for: a topic that
/// stands in an entry is found exactly if its URI is the one asked for (or, where the
/// pattern ends in a star, begins with what is in front of it), and its time is after the
/// one asked for, if one was.
#[verifier::rlimit(50)]
pub proof fn law_search_finds_what_was_asked_for(
    m: Seq<u8>,
    i: int,
    region: Seq<char>,
    uri: Seq<char>,
    pid: u32,
    t: u64,
    pattern: Seq<char>,
    since: Option<u64>,
)
    requires
        REG_TOTAL_SIZE <= m.len(),
        stands(m, i, region, uri, pid, t),
    ensures
        registry::discovered(m, REG_MAX_ENTRIES as nat, pattern, since).contains(
            (region, uri, pid, t),
        ) <==> asked_for(pattern, uri) && (since matches Some(s) ==> t > s),
{
    lemma_stands(m, i, region, uri, pid, t);
    lemma_asked_for(pattern, uri);
    let all = registry::discovered(m, REG_MAX_ENTRIES as nat, pattern, since);
    if asked_for(pattern, uri) && (since matches Some(s) ==> t > s) {
        registry::lemma_discovered(m, REG_MAX_ENTRIES as nat, pattern, since, i);
    }
    if all.contains((region, uri, pid, t)) {
        let k = choose|k: int| 0 <= k < all.len() && all[k] == (region, uri, pid, t);
        lemma_found(m, REG_MAX_ENTRIES as nat, pattern, since, k);
    }
}

/// Where the `k`th topic that was found stands.
pub open spec fn found_at(
    m: Seq<u8>,
    n: nat,
    pattern: Seq<char>,
    since: Option<u64>,
    k: int,
    i: int,
) -> bool {
    let d = registry::discovered(m, n, pattern, since)[k];
    &&& 0 <= i < n
    &&& state(m, i) == RE_STATE_ACTIVE
    &&& registry::entry_region(m, i) == d.0
    &&& registry::entry_uri(m, i) == d.1
    &&& memory::u32_at(m, at(i) + RE_PID) == d.2
    &&& time(m, i) == d.3
}

#[verifier::rlimit(50)]
proof fn lemma_found(m: Seq<u8>, n: nat, pattern: Seq<char>, since: Option<u64>, k: int)
    requires
        0 <= k < registry::discovered(m, n, pattern, since).len(),
    ensures
        ({
            let d = registry::discovered(m, n, pattern, since)[k];
            &&& asked_for(pattern, d.1)
            &&& since matches Some(s) ==> d.3 > s
            &&& exists|i: int| #[trigger] found_at(m, n, pattern, since, k, i)
        }),
    decreases n,
{
    if n > 0 {
        let before = registry::discovered(m, (n - 1) as nat, pattern, since);
        if k < before.len() {
            lemma_found(m, (n - 1) as nat, pattern, since, k);
            let i = choose|i: int|
                #[trigger] found_at(m, (n - 1) as nat, pattern, since, k, i);
            assert(found_at(m, n, pattern, since, k, i));
        } else {
            lemma_asked_for(pattern, registry::entry_uri(m, n - 1));
            assert(found_at(m, n, pattern, since, k, n - 1));
        }
    }
}

/// Nothing else is found: every topic that a search finds is in an entry in use, was asked
/// for, and is newer than the time asked for. A pattern without a star at its end finds
/// nothing but its own URI.
pub proof fn law_search_finds_nothing_else(
    m: Seq<u8>,
    pattern: Seq<char>,
    since: Option<u64>,
    k: int,
)
    requires
        0 <= k < registry::discovered(m, REG_MAX_ENTRIES as nat, pattern, since).len(),
    ensures
        ({
            let d = registry::discovered(m, REG_MAX_ENTRIES as nat, pattern, since)[k];
            &&& asked_for(pattern, d.1)
            &&& !(pattern.len() > 0 && pattern[pattern.len() - 1] == '*') ==> d.1 == pattern
            &&& since matches Some(s) ==> d.3 > s
            &&& exists|i: int|
                #[trigger] found_at(m, REG_MAX_ENTRIES as nat, pattern, since, k, i)
        }),
{
    lemma_found(m, REG_MAX_ENTRIES as nat, pattern, since, k);
}

/// The number of entries in use among the first `n` whose URI was asked for and whose time
/// is after the one asked for.
pub open spec fn hits(m: Seq<u8>, n: nat, pattern: Seq<char>, since: Option<u64>) -> nat
    decreases n,
{
    if n == 0 {
        0
    } else {
        hits(m, (n - 1) as nat, pattern, since) + if state(m, n - 1) == RE_STATE_ACTIVE
            && asked_for(pattern, registry::entry_uri(m, n - 1)) && (since matches Some(s) ==> time(
            m,
            n - 1,
        ) > s) {
            1nat
        } else {
            0
        }
    }
}

/// Every entry is found once.
pub proof fn law_search_finds_each_entry_once(
    m: Seq<u8>,
    n: nat,
    pattern: Seq<char>,
    since: Option<u64>,
)
    ensures
        registry::discovered(m, n, pattern, since).len() == hits(m, n, pattern, since),
    decreases n,
{
    if n > 0 {
        law_search_finds_each_entry_once(m, (n - 1) as nat, pattern, since);
        lemma_asked_for(pattern, registry::entry_uri(m, n - 1));
    }
}

proof fn lemma_free_is_found(m: Seq<u8>, from: int, j: int)
    requires
        0 <= from <= j < REG_MAX_ENTRIES,
        state(m, j) == RE_STATE_FREE,
    ensures
        registry::find_free_entry(m, from) matches Some(i) && from <= i <= j && state(m, i)
            == RE_STATE_FREE,
    decreases j - from,
{
    if state(m, from) != RE_STATE_FREE {
        lemma_free_is_found(m, from + 1, j);
    }
}

/// A filled entry holds what it was filled with, and the other entries keep their bytes.
#[verifier::rlimit(50)]
proof fn lemma_filled_entry(
    m: Seq<u8>,
    i: int,
    region: Seq<char>,
    uri: Seq<char>,
    pid: u32,
    now: u64,
)
    requires
        REG_TOTAL_SIZE <= m.len(),
        0 <= i < REG_MAX_ENTRIES,
        registry::name_fits(region, RE_REGION_NAME_MAX as nat),
        registry::name_fits(uri, RE_TOPIC_URI_MAX as nat),
    ensures
        ({
            let n = registry::with_entry(m, i, region, uri, pid, now);
            &&& n.len() == m.len()
            &&& stands(n, i, region, uri, pid, now)
            &&& forall|k: int|
                REG_HEADER_SIZE <= k < m.len() && !(at(i) <= k < at(i) + REG_ENTRY_SIZE)
                    ==> #[trigger] n[k] == m[k]
        }),
{
    let n = registry::with_entry(m, i, region, uri, pid, now);
    let a = vstd::utf8::encode_utf8(region);
    let b = vstd::utf8::encode_utf8(uri);
    let pa = registry::padded(a, RE_REGION_NAME_MAX as nat);
    let pb = registry::padded(b, RE_TOPIC_URI_MAX as nat);
    assert forall|k: int| 0 <= k < RE_REGION_NAME_MAX implies n[at(i) + RE_REGION_NAME + k]
        == #[trigger] pa[k] by {}
    assert forall|k: int| 0 <= k < RE_TOPIC_URI_MAX implies n[at(i) + RE_TOPIC_URI + k]
        == #[trigger] pb[k] by {}
    assert forall|k: int| 0 <= k < a.len() implies #[trigger] a[k] != 0 && n[at(i)
        + RE_REGION_NAME + k] == a[k] by {
        assert(pa[k] == a[k]);
    }
    assert(pa[a.len() as int] == 0);
    assert forall|k: int| 0 <= k < b.len() implies #[trigger] b[k] != 0 && n[at(i) + RE_TOPIC_URI
        + k] == b[k] by {
        assert(pb[k] == b[k]);
    }
    assert(pb[b.len() as int] == 0);
}

/// What stands in an entry whose bytes are kept stands there still.
#[verifier::rlimit(50)]
proof fn lemma_stands_still(
    m: Seq<u8>,
    n: Seq<u8>,
    j: int,
    region: Seq<char>,
    uri: Seq<char>,
    pid: u32,
    t: u64,
)
    requires
        REG_TOTAL_SIZE <= m.len(),
        n.len() == m.len(),
        stands(m, j, region, uri, pid, t),
        forall|k: int| at(j) <= k < at(j) + REG_ENTRY_SIZE ==> #[trigger] n[k] == m[k],
    ensures
        stands(n, j, region, uri, pid, t),
{
    let a = vstd::utf8::encode_utf8(region);
    let b = vstd::utf8::encode_utf8(uri);
    assert forall|k: int| 0 <= k < a.len() implies #[trigger] a[k] != 0 && n[at(j)
        + RE_REGION_NAME + k] == a[k] by {}
    assert forall|k: int| 0 <= k < b.len() implies #[trigger] b[k] != 0 && n[at(j) + RE_TOPIC_URI
        + k] == b[k] by {}
}

/// An entry in use names a region, a URI and a process.
pub open spec fn is_of(
    m: Seq<u8>,
    i: int,
    region: Seq<char>,
    uri: Seq<char>,
    pid: u32,
) -> bool {
    &&& state(m, i) == RE_STATE_ACTIVE
    &&& memory::u32_at(m, at(i) + RE_PID) == pid
    &&& registry::entry_region(m, i) == region
    &&& registry::entry_uri(m, i) == uri
}

/// Registering a topic makes it stand in the registry, with the time of the registration,
/// if there is a free entry or it stands there already. Every other topic keeps standing
/// where it stood, with the time it had.
#[verifier::rlimit(50)]
pub proof fn law_registered_topic_stands(
    m: Seq<u8>,
    region: Seq<char>,
    uri: Seq<char>,
    pid: u32,
    now: u64,
    j: int,
)
    requires
        REG_TOTAL_SIZE <= m.len(),
        registry::name_fits(region, RE_REGION_NAME_MAX as nat),
        registry::name_fits(uri, RE_TOPIC_URI_MAX as nat),
        0 <= j < REG_MAX_ENTRIES,
        state(m, j) == RE_STATE_FREE,
        forall|i: int|
            0 <= i < REG_MAX_ENTRIES ==> !#[trigger] is_of(m, i, region, uri, pid),
    ensures
        ({
            let n = registry::after_register(m, region, uri, pid, now);
            &&& n.len() == m.len()
            &&& exists|i: int| #[trigger] stands(n, i, region, uri, pid, now)
            &&& forall|i: int, r: Seq<char>, u: Seq<char>, p: u32, t: u64|
                #[trigger] stands(m, i, r, u, p, t) ==> stands(n, i, r, u, p, t)
        }),
{
    let n = registry::after_register(m, region, uri, pid, now);
    registry::lemma_find_entry(m, 0, region, uri, pid);
    if let Some(e) = registry::find_entry(m, 0, region, uri, pid) {
        assert(is_of(m, e, region, uri, pid));
    }
    lemma_free_is_found(m, 0, j);
    let i = registry::find_free_entry(m, 0)->0;
    lemma_filled_entry(m, i, region, uri, pid, now);
    assert(stands(n, i, region, uri, pid, now));
    assert forall|e: int, r: Seq<char>, u: Seq<char>, p: u32, t: u64| #[trigger]
        stands(m, e, r, u, p, t) implies stands(n, e, r, u, p, t) by {
        assert(e != i);
        lemma_stands_still(m, n, e, r, u, p, t);
    }
}

/// A topic that stands in the registry already is not registered a second time: its time
/// is renewed, no further entry is taken, and every other topic stays as it is.
#[verifier::rlimit(40)]
pub proof fn law_registered_again(
    m: Seq<u8>,
    region: Seq<char>,
    uri: Seq<char>,
    pid: u32,
    now: u64,
    j: int,
    before: u64,
)
    requires
        REG_TOTAL_SIZE <= m.len(),
        registry::name_fits(region, RE_REGION_NAME_MAX as nat),
        registry::name_fits(uri, RE_TOPIC_URI_MAX as nat),
        stands(m, j, region, uri, pid, before),
        forall|i: int|
            0 <= i < REG_MAX_ENTRIES && i != j ==> !#[trigger] is_of(m, i, region, uri, pid),
    ensures
        ({
            let n = registry::after_register(m, region, uri, pid, now);
            &&& n.len() == m.len()
            &&& stands(n, j, region, uri, pid, now)
            &&& forall|i: int| 0 <= i < REG_MAX_ENTRIES ==> #[trigger] state(n, i) == state(m, i)
            &&& forall|i: int, r: Seq<char>, u: Seq<char>, p: u32, t: u64|
                i != j && #[trigger] stands(m, i, r, u, p, t) ==> stands(n, i, r, u, p, t)
        }),
{
    let n = registry::after_register(m, region, uri, pid, now);
    lemma_stands(m, j, region, uri, pid, before);
    registry::lemma_find_entry(m, 0, region, uri, pid);
    let i = registry::find_entry(m, 0, region, uri, pid)->0;
    if i != j {
        assert(is_of(m, i, region, uri, pid));
    }
    assert(n == memory::put64(m, at(j) + RE_TIMESTAMP, now));
    let a = vstd::utf8::encode_utf8(region);
    let b = vstd::utf8::encode_utf8(uri);
    assert forall|k: int| 0 <= k < a.len() implies #[trigger] a[k] != 0 && n[at(j)
        + RE_REGION_NAME + k] == a[k] by {}
    assert forall|k: int| 0 <= k < b.len() implies #[trigger] b[k] != 0 && n[at(j) + RE_TOPIC_URI
        + k] == b[k] by {}
    assert(stands(n, j, region, uri, pid, now));
    assert forall|e: int, r: Seq<char>, u: Seq<char>, p: u32, t: u64|
        e != j && #[trigger] stands(m, e, r, u, p, t) implies stands(n, e, r, u, p, t) by {
        lemma_stands_still(m, n, e, r, u, p, t);
    }
}

/// A name that is too long for its field is not registered.
pub proof fn law_long_names_are_not_registered(
    m: Seq<u8>,
    region: Seq<char>,
    uri: Seq<char>,
    pid: u32,
    now: u64,
)
    requires
        vstd::utf8::encode_utf8(region).len() >= RE_REGION_NAME_MAX || vstd::utf8::encode_utf8(
            uri,
        ).len() >= RE_TOPIC_URI_MAX,
    ensures
        registry::after_register(m, region, uri, pid, now) == m,
{
}

/// Pruning at a time takes out exactly the topics whose time is more than the timeout
/// before it: the others stay in use, with everything that they hold.
pub proof fn law_prune_takes_out_the_stale(m: Seq<u8>, now: u64, timeout: u64, i: int)
    requires
        REG_TOTAL_SIZE <= m.len(),
        0 <= i < REG_MAX_ENTRIES,
    ensures
        ({
            let n = registry::swept(
                m,
                REG_MAX_ENTRIES as nat,
                registry::entries_before(m, registry::cutoff_of(now, timeout)),
            );
            &&& state(n, i) == RE_STATE_ACTIVE <==> state(m, i) == RE_STATE_ACTIVE && time(m, i)
                + timeout >= now
            &&& time(n, i) == time(m, i)
            &&& memory::u32_at(n, at(i) + RE_PID) == memory::u32_at(m, at(i) + RE_PID)
            &&& registry::entry_uri(n, i) == registry::entry_uri(m, i)
            &&& registry::entry_region(n, i) == registry::entry_region(m, i)
        }),
{
    registry::law_sweep(
        m,
        registry::entries_before(m, registry::cutoff_of(now, timeout)),
        i,
    );
}

/// A search for live topics finds those that were heard of within the last ten seconds,
/// and no others.
#[verifier::rlimit(50)]
pub proof fn law_live_topics_are_ten_seconds_old_at_most(
    m: Seq<u8>,
    now: u64,
    i: int,
    region: Seq<char>,
    uri: Seq<char>,
    pid: u32,
    t: u64,
    pattern: Seq<char>,
)
    requires
        REG_TOTAL_SIZE <= m.len(),
        stands(m, i, region, uri, pid, t),
        asked_for(pattern, uri),
    ensures
        ({
            let n = registry::swept(
                m,
                REG_MAX_ENTRIES as nat,
                registry::entries_before(m, registry::cutoff_of(now, DISCOVER_STALE_US)),
            );
            let found = registry::discovered(n, REG_MAX_ENTRIES as nat, pattern, None);
            &&& now - t <= 10_000_000 ==> found.contains((region, uri, pid, t))
            &&& found.contains((region, uri, pid, t)) ==> now - t <= 10_000_000
        }),
{
    let n = registry::swept(
        m,
        REG_MAX_ENTRIES as nat,
        registry::entries_before(m, registry::cutoff_of(now, DISCOVER_STALE_US)),
    );
    lemma_stands(m, i, region, uri, pid, t);
    lemma_asked_for(pattern, uri);
    let found = registry::discovered(n, REG_MAX_ENTRIES as nat, pattern, None);
    law_prune_takes_out_the_stale(m, now, DISCOVER_STALE_US, i);
    if now - t <= 10_000_000 {
        registry::lemma_discovered(n, REG_MAX_ENTRIES as nat, pattern, None, i);
    }
    if found.contains((region, uri, pid, t)) {
        let k = choose|k: int| 0 <= k < found.len() && found[k] == (region, uri, pid, t);
        lemma_found(n, REG_MAX_ENTRIES as nat, pattern, None, k);
        let e = choose|e: int|
            #[trigger] found_at(n, REG_MAX_ENTRIES as nat, pattern, None, k, e);
        law_prune_takes_out_the_stale(m, now, DISCOVER_STALE_US, e);
    }
}

/// Unregistering takes out exactly the topics of the region and process that is named:
/// every other topic stays in use.
pub proof fn law_unregister_takes_out_its_own(
    m: Seq<u8>,
    region: Seq<char>,
    pid: u32,
    i: int,
    r: Seq<char>,
    u: Seq<char>,
    p: u32,
    t: u64,
)
    requires
        REG_TOTAL_SIZE <= m.len(),
        stands(m, i, r, u, p, t),
    ensures
        ({
            let n = registry::swept(
                m,
                REG_MAX_ENTRIES as nat,
                registry::entries_of(m, region, pid),
            );
            &&& state(n, i) == RE_STATE_ACTIVE <==> !(r == region && p == pid)
            &&& registry::entry_uri(n, i) == u
            &&& registry::entry_region(n, i) == r
            &&& memory::u32_at(n, at(i) + RE_PID) == p
            &&& time(n, i) == t
        }),
{
    lemma_stands(m, i, r, u, p, t);
    registry::law_sweep(m, registry::entries_of(m, region, pid), i);
}

/// After a region and process was unregistered, no search finds anything of it.
pub proof fn law_unregistered_is_not_found(
    m: Seq<u8>,
    region: Seq<char>,
    pid: u32,
    pattern: Seq<char>,
    since: Option<u64>,
    k: int,
)
    requires
        REG_TOTAL_SIZE <= m.len(),
        0 <= k < registry::discovered(
            registry::swept(m, REG_MAX_ENTRIES as nat, registry::entries_of(m, region, pid)),
            REG_MAX_ENTRIES as nat,
            pattern,
            since,
        ).len(),
    ensures
        ({
            let n = registry::swept(
                m,
                REG_MAX_ENTRIES as nat,
                registry::entries_of(m, region, pid),
            );
            let d = registry::discovered(n, REG_MAX_ENTRIES as nat, pattern, since)[k];
            !(d.0 == region && d.2 == pid)
        }),
{
    let n = registry::swept(m, REG_MAX_ENTRIES as nat, registry::entries_of(m, region, pid));
    lemma_found(n, REG_MAX_ENTRIES as nat, pattern, since, k);
    let i = choose|i: int| #[trigger] found_at(n, REG_MAX_ENTRIES as nat, pattern, since, k, i);
    registry::law_sweep(m, registry::entries_of(m, region, pid), i);
}

/// A new topic gets the first entry that is free, and none exactly if none is; a topic that
/// stands in the registry is looked for from the first entry on.
pub proof fn law_first_free_entry(m: Seq<u8>, from: int)
    requires
        0 <= from,
    ensures
        match registry::find_free_entry(m, from) {
            Some(i) => {
                &&& from <= i < 256
                &&& state(m, i) == 0
                &&& forall|k: int| from <= k < i ==> #[trigger] state(m, k) != 0
            },
            None => forall|k: int| from <= k < 256 ==> #[trigger] state(m, k) != 0,
        },
    decreases 256 - from,
{
    if from < 256 {
        law_first_free_entry(m, from + 1);
        assert(registry::entry_free(m, from) == (state(m, from) == 0));
    }
}

/// Topics are found in the order of their entries: what is found in the first entries comes
/// before what is found in later ones.
#[verifier::rlimit(50)]
pub proof fn law_search_goes_by_the_entries(
    m: Seq<u8>,
    n: nat,
    more: nat,
    pattern: Seq<char>,
    since: Option<u64>,
)
    ensures
        registry::discovered(m, n, pattern, since).is_prefix_of(
            registry::discovered(m, n + more, pattern, since),
        ),
        registry::discovered(m, n + more, pattern, since).len() <= registry::discovered(
            m,
            n,
            pattern,
            since,
        ).len() + more,
    decreases more,
{
    let a = registry::discovered(m, n, pattern, since);
    if more > 0 {
        law_search_goes_by_the_entries(m, n, (more - 1) as nat, pattern, since);
        let b = registry::discovered(m, (n + more - 1) as nat, pattern, since);
        let c = registry::discovered(m, n + more, pattern, since);
        assert((n + (more - 1) as nat) == (n + more - 1) as nat);
        assert(a =~= b.subrange(0, a.len() as int));
        assert(a =~= c.subrange(0, a.len() as int));
    } else {
        assert(a =~= a.subrange(0, a.len() as int));
    }
}

} // verus!
