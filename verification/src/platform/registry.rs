//! The registry of topics, by which subscribers find publishers.
//!
//! Layout: a header of 64 bytes, and 256 entries of 128 bytes. An entry holds
//! its state, the publisher's process id, the time of its last heartbeat, and
//! the region name and topic URI, each padded with zeros.

use crate::error::Error;
use crate::memory::{self, Access, Accesses, SharedMemory};
use crate::platform::place::Place;
use crate::protocol::reading;
use crate::text::{
    begins_with, bytes_of, chars_of, same_text, string_of, text, text_of_bytes_lossy,
};
use vstd::prelude::*;

verus! {

broadcast use crate::memory::group_memory;

/// Version of the layout.
pub const REG_VERSION: u32 = 1;

/// Size of the header.
pub const REG_HEADER_SIZE: usize = 64;

/// Size of an entry.
pub const REG_ENTRY_SIZE: usize = 128;

/// Number of entries.
pub const REG_MAX_ENTRIES: u32 = 256;

/// Size of the whole registry.
pub const REG_TOTAL_SIZE: usize = 32832;

/// Header: magic bytes.
pub const RH_MAGIC: usize = 0;

/// Header: version.
pub const RH_VERSION: usize = 8;

/// Header: number of entries in use.
pub const RH_ENTRY_COUNT: usize = 12;

/// Header: number of entries.
pub const RH_MAX_ENTRIES: usize = 16;

/// Entry: state.
pub const RE_ACTIVE: usize = 0;

/// Entry: process id of the publisher.
pub const RE_PID: usize = 4;

/// Entry: time of the last heartbeat.
pub const RE_TIMESTAMP: usize = 8;

/// Entry: region name.
pub const RE_REGION_NAME: usize = 16;

/// Bytes for a region name, with the zero behind it.
pub const RE_REGION_NAME_MAX: usize = 48;

/// Entry: topic URI.
pub const RE_TOPIC_URI: usize = 64;

/// Bytes for a topic URI, with the zero behind it.
pub const RE_TOPIC_URI_MAX: usize = 64;

/// State of an entry that nobody uses.
pub const RE_STATE_FREE: u32 = 0;

/// State of an entry in use.
pub const RE_STATE_ACTIVE: u32 = 1;

/// Age in microseconds after which `discover` drops an entry.
pub const DISCOVER_STALE_US: u64 = 10_000_000;

/// The eight bytes `XREG_ZC\0`.
pub open spec fn reg_magic() -> Seq<u8> {
    seq![0x58, 0x52, 0x45, 0x47, 0x5F, 0x5A, 0x43, 0x00]
}

fn reg_magic_bytes() -> (r: Vec<u8>)
    ensures
        r@ == reg_magic(),
{
    let r: Vec<u8> = vec![0x58, 0x52, 0x45, 0x47, 0x5F, 0x5A, 0x43, 0x00];
    assert(r@ =~= reg_magic());
    r
}

/// A topic found in the registry.
#[derive(Debug, Clone, PartialEq, Eq)]
pub struct DiscoveredTopic {
    /// The region that it is published in.
    pub region: String,
    /// The topic URI.
    pub uri: String,
    /// The publisher's process id.
    pub pid: u32,
    /// Time of registration or heartbeat, in microseconds since the epoch.
    pub timestamp_us: u64,
}

/// A found topic as plain values: region, URI, process id, time.
pub open spec fn topic_view(d: DiscoveredTopic) -> (Seq<char>, Seq<char>, u32, u64) {
    (d.region@, d.uri@, d.pid, d.timestamp_us)
}

/// Offset of an entry.
pub open spec fn entry_off(i: int) -> int {
    REG_HEADER_SIZE + i * REG_ENTRY_SIZE
}

/// An entry is in use.
pub open spec fn entry_active(m: Seq<u8>, i: int) -> bool {
    memory::u32_at(m, entry_off(i) + RE_ACTIVE) == RE_STATE_ACTIVE
}

/// An entry is free.
pub open spec fn entry_free(m: Seq<u8>, i: int) -> bool {
    memory::u32_at(m, entry_off(i) + RE_ACTIVE) == RE_STATE_FREE
}

/// Process id of an entry.
pub open spec fn entry_pid(m: Seq<u8>, i: int) -> u32 {
    memory::u32_at(m, entry_off(i) + RE_PID)
}

/// Time of an entry's last heartbeat.
pub open spec fn entry_time(m: Seq<u8>, i: int) -> u64 {
    memory::u64_at(m, entry_off(i) + RE_TIMESTAMP)
}

/// Bytes up to the first zero.
pub open spec fn up_to_zero(b: Seq<u8>) -> Seq<u8>
    decreases b.len(),
{
    if b.len() == 0 || b[0] == 0 {
        Seq::empty()
    } else {
        seq![b[0]] + up_to_zero(b.subrange(1, b.len() as int))
    }
}

/// The text of a padded field.
pub open spec fn fixed_text(b: Seq<u8>) -> Seq<char> {
    crate::text::shown_text(up_to_zero(b))
}

/// Region name of an entry.
pub open spec fn entry_region(m: Seq<u8>, i: int) -> Seq<char> {
    fixed_text(memory::bytes_at(m, entry_off(i) + RE_REGION_NAME, RE_REGION_NAME_MAX as int))
}

/// Topic URI of an entry.
pub open spec fn entry_uri(m: Seq<u8>, i: int) -> Seq<char> {
    fixed_text(memory::bytes_at(m, entry_off(i) + RE_TOPIC_URI, RE_TOPIC_URI_MAX as int))
}

/// Bytes padded with zeros to a length; what does not fit in front of the last
/// zero is cut off.
pub open spec fn padded(b: Seq<u8>, len: nat) -> Seq<u8> {
    Seq::new(len, |i: int| if i < b.len() && i < len - 1 { b[i] } else { 0u8 })
}

/// Where the registry is stored: where the user says, or else at a place of its
/// own.
pub fn registry_path(asked: Option<String>, place: &Place) -> (r: String)
    ensures
        r@ == match asked {
            Some(p) => p@,
            None => place.path_of(
                "/dev/shm/crossbar-"@,
                "crossbar-"@,
                "/tmp/crossbar-shm-"@,
                "registry"@,
            ),
        },
{
    match asked {
        Some(p) => p,
        None => place.file("/dev/shm/crossbar-", "crossbar-", "/tmp/crossbar-shm-", "registry"),
    }
}

/// Number of bytes in front of the first zero, computed.
fn zero_at(b: &[u8]) -> (r: usize)
    ensures
        r <= b@.len(),
        b@.subrange(0, r as int) == up_to_zero(b@),
{
    let mut i: usize = 0;
    proof {
        assert(b@.subrange(0, b@.len() as int) =~= b@);
        assert(b@.subrange(0, 0) + up_to_zero(b@) =~= up_to_zero(b@));
    }
    while i < b.len() && b[i] != 0
        invariant
            i <= b@.len(),
            b@.subrange(0, i as int) + up_to_zero(b@.subrange(i as int, b@.len() as int))
                == up_to_zero(b@),
        decreases b@.len() - i,
    {
        proof {
            let rest = b@.subrange(i as int, b@.len() as int);
            assert(rest.subrange(1, rest.len() as int) =~= b@.subrange(i + 1, b@.len() as int));
            let tail = up_to_zero(b@.subrange(i + 1, b@.len() as int));
            assert(b@.subrange(0, i as int) + (seq![b@[i as int]] + tail) =~= b@.subrange(0, i + 1)
                + tail);
        }
        i = i + 1;
    }
    proof {
        let rest = b@.subrange(i as int, b@.len() as int);
        assert(up_to_zero(rest) =~= Seq::<u8>::empty());
        assert(b@.subrange(0, i as int) + Seq::<u8>::empty() =~= b@.subrange(0, i as int));
    }
    i
}

/// Reads a padded field.
pub fn read_fixed_str(b: &[u8]) -> (r: String)
    ensures
        r@ == fixed_text(b@),
{
    let n: usize = zero_at(b);
    let part: Vec<u8> = memory::copy_range(b, 0, n);
    text_of_bytes_lossy(part.as_slice())
}

/// Pads a string for a field of `max_len` bytes.
pub fn write_fixed_str(s: &str, max_len: usize) -> (r: Vec<u8>)
    requires
        max_len >= 1,
    ensures
        r@ == padded(vstd::utf8::encode_utf8(s@), max_len as nat),
{
    let b: &[u8] = bytes_of(s);
    let mut r: Vec<u8> = Vec::new();
    let mut i: usize = 0;
    while i < max_len
        invariant
            i <= max_len,
            max_len >= 1,
            b@ == vstd::utf8::encode_utf8(s@),
            r@.len() == i,
            forall|j: int| 0 <= j < i ==> r@[j] == padded(b@, max_len as nat)[j],
        decreases max_len - i,
    {
        if i < b.len() && i < max_len - 1 {
            r.push(b[i]);
        } else {
            r.push(0);
        }
        i = i + 1;
    }
    assert(r@ =~= padded(b@, max_len as nat));
    r
}

/// A URI matches a pattern: a `*` at the end stands for any rest, and without
/// one the two must be equal.
pub open spec fn pattern_matches(pattern: Seq<char>, uri: Seq<char>) -> bool {
    if pattern.len() > 0 && pattern.last() == '*' {
        pattern.drop_last().is_prefix_of(uri)
    } else {
        uri == pattern
    }
}

/// A pattern taken apart.
pub struct Pattern {
    /// What a URI must begin with, or be.
    pub prefix: String,
    /// The pattern ends in `*`.
    pub wildcard: bool,
}

impl Pattern {
    /// The URI matches.
    pub open spec fn accepts(&self, uri: Seq<char>) -> bool {
        if self.wildcard {
            self.prefix@.is_prefix_of(uri)
        } else {
            uri == self.prefix@
        }
    }

    /// Takes a pattern apart.
    pub fn parse(pattern: &str) -> (r: Pattern)
        ensures
            forall|uri: Seq<char>| #[trigger] r.accepts(uri) == pattern_matches(pattern@, uri),
    {
        let c: Vec<char> = chars_of(pattern);
        let n: usize = c.len();
        if n > 0 && c[n - 1] == '*' {
            let mut front: Vec<char> = c;
            let _star: Option<char> = front.pop();
            assert(front@ =~= pattern@.drop_last());
            Pattern { prefix: string_of(front.as_slice()), wildcard: true }
        } else {
            Pattern { prefix: pattern.to_owned(), wildcard: false }
        }
    }

    /// Whether a URI matches.
    pub fn matches_uri(&self, uri: &str) -> (r: bool)
        ensures
            r == self.accepts(uri@),
    {
        if self.wildcard {
            begins_with(uri, self.prefix.as_str())
        } else {
            same_text(uri, self.prefix.as_str())
        }
    }
}

/// An entry is the registration of a topic by a process.
pub open spec fn entry_is(
    m: Seq<u8>,
    i: int,
    region: Seq<char>,
    uri: Seq<char>,
    pid: u32,
) -> bool {
    &&& entry_active(m, i)
    &&& entry_pid(m, i) == pid
    &&& entry_region(m, i) == region
    &&& entry_uri(m, i) == uri
}

/// The first entry, from `from` on, that is this registration.
pub open spec fn find_entry(
    m: Seq<u8>,
    from: int,
    region: Seq<char>,
    uri: Seq<char>,
    pid: u32,
) -> Option<int>
    decreases REG_MAX_ENTRIES - from,
{
    if from >= REG_MAX_ENTRIES {
        None
    } else if entry_is(m, from, region, uri, pid) {
        Some(from)
    } else {
        find_entry(m, from + 1, region, uri, pid)
    }
}

/// The first free entry, from `from` on.
pub open spec fn find_free_entry(m: Seq<u8>, from: int) -> Option<int>
    decreases REG_MAX_ENTRIES - from,
{
    if from >= REG_MAX_ENTRIES {
        None
    } else if entry_free(m, from) {
        Some(from)
    } else {
        find_free_entry(m, from + 1)
    }
}

/// An attempt to claim an entry.
pub open spec fn tries_entry(a: Access, i: int, done: bool) -> bool {
    a matches Access::Exchange32 { off, current, new, found } && {
        &&& off == entry_off(i) + RE_ACTIVE
        &&& current == RE_STATE_FREE
        &&& new == RE_STATE_ACTIVE
        &&& (found is Ok) == done
    }
}

/// The names of a registration are short enough for an entry.
pub open spec fn names_fit(region: Seq<char>, uri: Seq<char>) -> bool {
    &&& vstd::utf8::encode_utf8(region).len() < RE_REGION_NAME_MAX
    &&& vstd::utf8::encode_utf8(uri).len() < RE_TOPIC_URI_MAX
}

/// The time of a registration: zero where the clock cannot tell it.
pub open spec fn time_of(now: Option<u64>) -> u64 {
    match now {
        Some(t) => t,
        None => 0,
    }
}

/// What filling a claimed entry does: process, time and names, and then the entry
/// is counted.
pub open spec fn entry_stores(
    i: int,
    region: Seq<char>,
    uri: Seq<char>,
    pid: u32,
    now: u64,
    was: u32,
) -> Accesses {
    let off = entry_off(i);
    seq![
        Access::Word32 { off: off + RE_PID, v: pid },
        Access::Word64 { off: off + RE_TIMESTAMP, v: now },
        Access::Bytes {
            off: off + RE_REGION_NAME,
            data: padded(vstd::utf8::encode_utf8(region), RE_REGION_NAME_MAX as nat),
        },
        Access::Bytes {
            off: off + RE_TOPIC_URI,
            data: padded(vstd::utf8::encode_utf8(uri), RE_TOPIC_URI_MAX as nat),
        },
        Access::Add32 { off: RH_ENTRY_COUNT as int, v: 1, was },
    ]
}

/// What registering in a free entry does: the entries are tried in turn, and the
/// first one that can be claimed is filled; a full registry is left as it is.
pub open spec fn takes_entry(
    ops: Accesses,
    region: Seq<char>,
    uri: Seq<char>,
    pid: u32,
    now: u64,
) -> bool {
    ||| exists|tries: Accesses, i: int, was: u32|
        {
            &&& ops == tries + #[trigger] entry_stores(i, region, uri, pid, now, was)
            &&& #[trigger] claims_entry(tries, i)
        }
    ||| {
        &&& ops.len() == REG_MAX_ENTRIES
        &&& forall|k: int| 0 <= k < ops.len() ==> tries_entry(#[trigger] ops[k], k, false)
    }
}

/// Attempts to claim entries in turn, of which only the last one came about.
pub open spec fn claims_entry(tries: Accesses, i: int) -> bool {
    &&& 0 <= i < REG_MAX_ENTRIES
    &&& tries.len() == i + 1
    &&& forall|k: int| 0 <= k <= i ==> tries_entry(#[trigger] tries[k], k, k == i)
}

/// What registering does: the time of an entry is renewed, or an entry is taken.
pub open spec fn registers(
    ops: Accesses,
    region: Seq<char>,
    uri: Seq<char>,
    pid: u32,
    now: u64,
) -> bool {
    ||| exists|i: int|
        0 <= i < REG_MAX_ENTRIES && ops == seq![
            #[trigger] renews(i, now),
        ]
    ||| takes_entry(ops, region, uri, pid, now)
}

/// The time of an entry is renewed.
pub open spec fn renews(i: int, now: u64) -> Access {
    Access::Word64 { off: entry_off(i) + RE_TIMESTAMP, v: now }
}

/// A look at the state of an entry.
pub open spec fn state_look(i: int, state: u32) -> Access {
    Access::Look32 { off: entry_off(i) + RE_ACTIVE, found: state }
}

/// What taking an entry out of the registry does if it is one of a region and process:
/// its state is looked at, then its process, then its region.
pub open spec fn unregisters(ops: Accesses, i: int, region: Seq<char>, pid: u32) -> bool {
    exists|state: u32, rest: Accesses|
        {
            &&& ops == seq![state_look(i, state)] + rest
            &&& #[trigger] unregisters_in(rest, i, state, region, pid)
        }
}

/// What is done about an entry after its state was seen.
pub open spec fn unregisters_in(
    ops: Accesses,
    i: int,
    state: u32,
    region: Seq<char>,
    pid: u32,
) -> bool {
    if state != RE_STATE_ACTIVE {
        ops.len() == 0
    } else {
        exists|of: u32, rest: Accesses|
            {
                &&& ops == seq![Access::Look32 { off: entry_off(i) + RE_PID, found: of }] + rest
                &&& #[trigger] unregisters_of(rest, i, of, region, pid)
            }
    }
}

/// What is done about an entry in use after its process was seen.
pub open spec fn unregisters_of(
    ops: Accesses,
    i: int,
    of: u32,
    region: Seq<char>,
    pid: u32,
) -> bool {
    if of != pid {
        ops.len() == 0
    } else {
        exists|name: Seq<u8>, rest: Accesses|
            {
                &&& ops == seq![
                    Access::Copied { off: entry_off(i) + RE_REGION_NAME, found: name },
                ] + rest
                &&& #[trigger] unregisters_named(rest, i, name, region)
            }
    }
}

/// What is done about an entry of the process after its region was seen.
pub open spec fn unregisters_named(
    ops: Accesses,
    i: int,
    name: Seq<u8>,
    region: Seq<char>,
) -> bool {
    if fixed_text(name) != region {
        ops.len() == 0
    } else {
        frees_entry(ops, i)
    }
}

/// What taking an entry out of the registry does if its time is before `cutoff`: its
/// state is looked at, then its time.
pub open spec fn prunes(ops: Accesses, i: int, cutoff: u64) -> bool {
    exists|state: u32, rest: Accesses|
        {
            &&& ops == seq![state_look(i, state)] + rest
            &&& #[trigger] prunes_in(rest, i, state, cutoff)
        }
}

/// What is done about an entry after its state was seen.
pub open spec fn prunes_in(ops: Accesses, i: int, state: u32, cutoff: u64) -> bool {
    if state != RE_STATE_ACTIVE {
        ops.len() == 0
    } else {
        exists|at: u64, rest: Accesses|
            {
                &&& ops == seq![
                    Access::Look64 { off: entry_off(i) + RE_TIMESTAMP, found: at },
                ] + rest
                &&& #[trigger] prunes_since(rest, i, at, cutoff)
            }
    }
}

/// What is done about an entry in use after its time was seen.
pub open spec fn prunes_since(ops: Accesses, i: int, at: u64, cutoff: u64) -> bool {
    if at >= cutoff {
        ops.len() == 0
    } else {
        frees_entry(ops, i)
    }
}

/// Each of these is what taking the entry of its number out does if it is one of a
/// region and process.
pub open spec fn unregisters_each(parts: Seq<Accesses>, region: Seq<char>, pid: u32) -> bool {
    forall|i: int|
        0 <= i < parts.len() ==> #[trigger] unregisters(parts[i], i, region, pid)
}

/// Each of these is what taking the entry of its number out does if its time is before
/// `cutoff`.
pub open spec fn prunes_each(parts: Seq<Accesses>, cutoff: u64) -> bool {
    forall|i: int| 0 <= i < parts.len() ==> #[trigger] prunes(parts[i], i, cutoff)
}

/// Between two records all entries of a region and process were taken out, in order.
pub open spec fn unregistered_all(
    before: Accesses,
    after: Accesses,
    region: Seq<char>,
    pid: u32,
) -> bool {
    exists|parts: Seq<Accesses>|
        {
            &&& parts.len() == REG_MAX_ENTRIES
            &&& after == before + reading::joined(parts)
            &&& #[trigger] unregisters_each(parts, region, pid)
        }
}

/// Between two records all entries with a time before `cutoff` were taken out, in
/// order.
pub open spec fn pruned_all(before: Accesses, after: Accesses, cutoff: u64) -> bool {
    exists|parts: Seq<Accesses>|
        {
            &&& parts.len() == REG_MAX_ENTRIES
            &&& after == before + reading::joined(parts)
            &&& #[trigger] prunes_each(parts, cutoff)
        }
}

/// What freeing an entry does: by an exchange, so that only one party counts it
/// off.
pub open spec fn frees_entry(ops: Accesses, i: int) -> bool {
    &&& ops.len() > 0
    &&& ops[0] matches Access::Exchange32 { off, current, new, found } && {
        &&& off == entry_off(i) + RE_ACTIVE
        &&& current == RE_STATE_ACTIVE
        &&& new == RE_STATE_FREE
        &&& found is Err ==> ops.len() == 1
        &&& found is Ok ==> exists|was: u32|
            ops.subrange(1, ops.len() as int) == #[trigger] count_off(was)
    }
}

/// An entry is counted off; a count that was zero stays so.
pub open spec fn count_off(was: u32) -> Accesses {
    let down = Access::Subtract32 { off: RH_ENTRY_COUNT as int, v: 1, was };
    if was == 0 {
        seq![down, Access::Word32 { off: RH_ENTRY_COUNT as int, v: 0 }]
    } else {
        seq![down]
    }
}

/// The registry with a registration in an entry.
pub open spec fn with_entry(
    m: Seq<u8>,
    i: int,
    region: Seq<char>,
    uri: Seq<char>,
    pid: u32,
    now: u64,
) -> Seq<u8> {
    let off = entry_off(i);
    let m = memory::put32(m, off + RE_ACTIVE, RE_STATE_ACTIVE);
    let m = memory::put32(m, off + RE_PID, pid);
    let m = memory::put64(m, off + RE_TIMESTAMP, now);
    let m = memory::put(
        m,
        off + RE_REGION_NAME,
        padded(vstd::utf8::encode_utf8(region), RE_REGION_NAME_MAX as nat),
    );
    let m = memory::put(
        m,
        off + RE_TOPIC_URI,
        padded(vstd::utf8::encode_utf8(uri), RE_TOPIC_URI_MAX as nat),
    );
    memory::put32(
        m,
        RH_ENTRY_COUNT as int,
        memory::wrapping_sum_u32(memory::u32_at(m, RH_ENTRY_COUNT as int), 1),
    )
}

/// The registry after registering.
pub open spec fn after_register(
    m: Seq<u8>,
    region: Seq<char>,
    uri: Seq<char>,
    pid: u32,
    now: u64,
) -> Seq<u8> {
    if vstd::utf8::encode_utf8(region).len() >= RE_REGION_NAME_MAX || vstd::utf8::encode_utf8(
        uri,
    ).len() >= RE_TOPIC_URI_MAX {
        m
    } else {
        match find_entry(m, 0, region, uri, pid) {
            Some(i) => memory::put64(m, entry_off(i) + RE_TIMESTAMP, now),
            None => match find_free_entry(m, 0) {
                Some(i) => with_entry(m, i, region, uri, pid, now),
                None => m,
            },
        }
    }
}

/// The registry with an entry freed. The count does not go below zero.
pub open spec fn without_entry(m: Seq<u8>, i: int) -> Seq<u8> {
    let n = memory::put32(m, entry_off(i) + RE_ACTIVE, RE_STATE_FREE);
    let count = memory::u32_at(m, RH_ENTRY_COUNT as int);
    memory::put32(
        n,
        RH_ENTRY_COUNT as int,
        if count == 0 {
            0
        } else {
            (count - 1) as u32
        },
    )
}

/// The registry with those of its first `n` entries freed that are `gone`.
pub open spec fn swept(m: Seq<u8>, n: nat, gone: spec_fn(int) -> bool) -> Seq<u8>
    decreases n,
{
    if n == 0 {
        m
    } else {
        let a = swept(m, (n - 1) as nat, gone);
        if gone(n - 1) {
            without_entry(a, n - 1)
        } else {
            a
        }
    }
}

/// The entries of a region and process.
pub open spec fn entries_of(m: Seq<u8>, region: Seq<char>, pid: u32) -> spec_fn(int) -> bool {
    |i: int| entry_active(m, i) && entry_pid(m, i) == pid && entry_region(m, i) == region
}

/// The entries whose heartbeat is before a time.
pub open spec fn entries_before(m: Seq<u8>, cutoff: u64) -> spec_fn(int) -> bool {
    |i: int| entry_active(m, i) && entry_time(m, i) < cutoff
}

/// The time that entries must have reached to count as live.
pub open spec fn cutoff_of(now: u64, timeout: u64) -> u64 {
    if now < timeout {
        0
    } else {
        (now - timeout) as u64
    }
}

/// Freeing entries changes nothing but their states and the count.
pub proof fn lemma_swept(m: Seq<u8>, n: nat, gone: spec_fn(int) -> bool)
    requires
        n <= REG_MAX_ENTRIES,
        REG_TOTAL_SIZE <= m.len(),
    ensures
        swept(m, n, gone).len() == m.len(),
        forall|i: int, k: int|
            #![trigger entry_off(i), swept(m, n, gone)[k]]
            0 <= i < REG_MAX_ENTRIES && entry_off(i) + 4 <= k < entry_off(i) + REG_ENTRY_SIZE
                ==> swept(m, n, gone)[k] == m[k],
        forall|i: int|
            n <= i < REG_MAX_ENTRIES ==> memory::u32_at(
                swept(m, n, gone),
                #[trigger] entry_off(i),
            ) == memory::u32_at(m, entry_off(i)),
    decreases n,
{
    if n > 0 {
        lemma_swept(m, (n - 1) as nat, gone);
    }
}

/// Where an entry's bytes agree, so do its fields.
pub proof fn lemma_entry_kept(m: Seq<u8>, a: Seq<u8>, i: int)
    requires
        0 <= i < REG_MAX_ENTRIES,
        REG_TOTAL_SIZE <= m.len(),
        a.len() == m.len(),
        forall|k: int|
            entry_off(i) + 4 <= k < entry_off(i) + REG_ENTRY_SIZE ==> #[trigger] a[k] == m[k],
    ensures
        entry_pid(a, i) == entry_pid(m, i),
        entry_time(a, i) == entry_time(m, i),
        entry_region(a, i) == entry_region(m, i),
        entry_uri(a, i) == entry_uri(m, i),
{
    assert(memory::bytes_at(a, entry_off(i) + RE_REGION_NAME, RE_REGION_NAME_MAX as int)
        =~= memory::bytes_at(m, entry_off(i) + RE_REGION_NAME, RE_REGION_NAME_MAX as int));
    assert(memory::bytes_at(a, entry_off(i) + RE_TOPIC_URI, RE_TOPIC_URI_MAX as int)
        =~= memory::bytes_at(m, entry_off(i) + RE_TOPIC_URI, RE_TOPIC_URI_MAX as int));
}

/// The topics among the first `n` entries that match a pattern and are newer
/// than a time, if one is given.
pub open spec fn discovered(
    m: Seq<u8>,
    n: nat,
    pattern: Seq<char>,
    since: Option<u64>,
) -> Seq<(Seq<char>, Seq<char>, u32, u64)>
    decreases n,
{
    if n == 0 {
        Seq::empty()
    } else {
        let i = n - 1;
        let before = discovered(m, i as nat, pattern, since);
        if entry_active(m, i) && (since matches Some(t) ==> entry_time(m, i) > t)
            && pattern_matches(pattern, entry_uri(m, i)) {
            before.push((entry_region(m, i), entry_uri(m, i), entry_pid(m, i), entry_time(m, i)))
        } else {
            before
        }
    }
}

/// A segment holds a registry: it is large enough, and its magic bytes and its
/// version are right.
pub open spec fn is_registry(m: Seq<u8>) -> bool {
    &&& REG_TOTAL_SIZE <= m.len()
    &&& memory::bytes_at(m, RH_MAGIC as int, 8) == reg_magic()
    &&& memory::u32_at(m, RH_VERSION as int) == REG_VERSION
}

/// A new registry in some memory.
pub open spec fn new_registry(m: Seq<u8>) -> Seq<u8> {
    memory::put32(
        memory::put32(
            memory::put(m, RH_MAGIC as int, reg_magic()),
            RH_VERSION as int,
            REG_VERSION,
        ),
        RH_MAX_ENTRIES as int,
        REG_MAX_ENTRIES,
    )
}

/// The registry.
pub struct Registry<M: SharedMemory> {
    /// The segment.
    pub mem: M,
    /// Where the segment is stored.
    pub path: String,
}

impl<M: SharedMemory> Registry<M> {
    /// The segment has room for the registry.
    pub open spec fn wf(&self) -> bool {
        REG_TOTAL_SIZE <= self.mem.image().len() <= usize::MAX
    }

    /// `other` is the same registry at a later moment.
    pub open spec fn same_registry(&self, other: &Self) -> bool {
        &&& other.path == self.path
        &&& other.mem.image().len() == self.mem.image().len()
        &&& other.mem.exclusive() == self.mem.exclusive()
        &&& other.mem.contention() <= self.mem.contention()
    }

    /// Opens an existing registry.
    pub fn try_open_existing(mem: M, path: String) -> (r: Result<Registry<M>, Error>)
        ensures
            r matches Ok(reg) ==> reg.wf() && reg.mem == mem && reg.path == path,
            r matches Err(e) ==> e is InvalidRegion,
            mem.image().len() < REG_TOTAL_SIZE ==> (r matches Err(Error::InvalidRegion(t)) && t@
                == "registry file too small"@),
            mem.image().len() >= REG_TOTAL_SIZE && mem.exclusive() ==> if memory::bytes_at(
                mem.image(),
                RH_MAGIC as int,
                8,
            ) != reg_magic() {
                r matches Err(Error::InvalidRegion(t)) && t@ == "registry: invalid magic"@
            } else if memory::u32_at(mem.image(), RH_VERSION as int) != REG_VERSION {
                r matches Err(Error::InvalidRegion(t)) && t@ == "registry: unsupported version"@
            } else {
                r is Ok
            },
            mem.exclusive() ==> (r is Ok <==> is_registry(mem.image())),
    {
        let len: usize = mem.size();
        if len < REG_TOTAL_SIZE {
            return Err(Error::InvalidRegion(text("registry file too small")));
        }
        let found: Vec<u8> = mem.read(RH_MAGIC, 8);
        let magic: Vec<u8> = reg_magic_bytes();
        if !memory::same_bytes(found.as_slice(), magic.as_slice()) {
            return Err(Error::InvalidRegion(text("registry: invalid magic")));
        }
        let version: u32 = mem.load_u32(RH_VERSION);
        if version != REG_VERSION {
            return Err(Error::InvalidRegion(text("registry: unsupported version")));
        }
        Ok(Registry { mem, path })
    }

    /// Makes a registry of fresh memory.
    pub fn create_new(mem: M, path: String) -> (r: Registry<M>)
        requires
            REG_TOTAL_SIZE <= mem.image().len() <= usize::MAX,
        ensures
            r.wf(),
            r.path == path,
            r.mem.image().len() == mem.image().len(),
            r.mem.exclusive() == mem.exclusive(),
            mem.exclusive() ==> r.mem.image() == new_registry(mem.image()),
    {
        let mut mem: M = mem;
        let magic: Vec<u8> = reg_magic_bytes();
        mem.write(RH_MAGIC, magic.as_slice());
        mem.store_u32(RH_VERSION, REG_VERSION);
        mem.store_u32(RH_MAX_ENTRIES, REG_MAX_ENTRIES);
        Registry { mem, path }
    }

    /// Where the registry is stored.
    pub fn path(&self) -> (r: &str)
        ensures
            r@ == self.path@,
    {
        self.path.as_str()
    }

    fn region_at(&self, off: usize) -> (r: String)
        requires
            off + REG_ENTRY_SIZE <= self.mem.image().len() <= usize::MAX,
        ensures
            self.mem.exclusive() ==> r@ == fixed_text(
                memory::bytes_at(
                    self.mem.image(),
                    off + RE_REGION_NAME,
                    RE_REGION_NAME_MAX as int,
                ),
            ),
    {
        let b: Vec<u8> = self.mem.read(off + RE_REGION_NAME, RE_REGION_NAME_MAX);
        read_fixed_str(b.as_slice())
    }

    fn uri_at(&self, off: usize) -> (r: String)
        requires
            off + REG_ENTRY_SIZE <= self.mem.image().len() <= usize::MAX,
        ensures
            self.mem.exclusive() ==> r@ == fixed_text(
                memory::bytes_at(self.mem.image(), off + RE_TOPIC_URI, RE_TOPIC_URI_MAX as int),
            ),
    {
        let b: Vec<u8> = self.mem.read(off + RE_TOPIC_URI, RE_TOPIC_URI_MAX);
        read_fixed_str(b.as_slice())
    }

    /// Registers a topic at a time, or renews its time if it is registered.
    /// Names that are too long, and any name in a full registry, are passed
    /// over. A clock that cannot tell the time counts as zero.
    pub fn register(&mut self, region: &str, uri: &str, pid: u32, now: Option<u64>) -> (r: Result<
        (),
        Error,
    >)
        requires
            old(self).wf(),
        ensures
            r is Ok,
            final(self).wf(),
            old(self).same_registry(final(self)),
            names_fit(region@, uri@) ==> exists|ops: Accesses|
                {
                    &&& final(self).mem.accesses() == old(self).mem.accesses() + ops
                    &&& #[trigger] registers(ops, region@, uri@, pid, time_of(now))
                },
            !names_fit(region@, uri@) ==> final(self).mem.accesses() == old(self).mem.accesses(),
            old(self).mem.exclusive() ==> final(self).mem.image() == after_register(
                old(self).mem.image(),
                region@,
                uri@,
                pid,
                match now {
                    Some(t) => t,
                    None => 0,
                },
            ),
    {
        if bytes_of(region).len() >= RE_REGION_NAME_MAX || bytes_of(uri).len()
            >= RE_TOPIC_URI_MAX {
            return Ok(());
        }
        let ts: u64 = match now {
            Some(t) => t,
            None => 0,
        };
        assert(ts == time_of(now));
        let ghost first = self.mem.accesses();
        if self.renew(region, uri, pid, ts) {
            proof {
                let i = choose|i: int|
                    0 <= i < REG_MAX_ENTRIES && self.mem.accesses() == first.push(
                        #[trigger] renews(i, ts),
                    );
                assert(self.mem.accesses() =~= first + seq![renews(i, ts)]);
                assert(registers(seq![renews(i, ts)], region@, uri@, pid, ts));
            }
            return Ok(());
        }
        self.claim(region, uri, pid, ts);
        proof {
            let ops = choose|ops: Accesses|
                self.mem.accesses() == first + ops && #[trigger] takes_entry(
                    ops,
                    region@,
                    uri@,
                    pid,
                    ts,
                );
            assert(registers(ops, region@, uri@, pid, ts));
        }
        Ok(())
    }

    /// Renews the time of a registration, if there is one.
    fn renew(&mut self, region: &str, uri: &str, pid: u32, ts: u64) -> (r: bool)
        requires
            old(self).wf(),
        ensures
            final(self).wf(),
            old(self).same_registry(final(self)),
            if r {
                exists|i: int|
                    0 <= i < REG_MAX_ENTRIES && final(self).mem.accesses() == old(
                        self,
                    ).mem.accesses().push(#[trigger] renews(i, ts))
            } else {
                final(self).mem.accesses() == old(self).mem.accesses()
            },
            old(self).mem.exclusive() ==> match find_entry(
                old(self).mem.image(),
                0,
                region@,
                uri@,
                pid,
            ) {
                Some(i) => r && final(self).mem.image() == memory::put64(
                    old(self).mem.image(),
                    entry_off(i) + RE_TIMESTAMP,
                    ts,
                ),
                None => !r && final(self).mem.image() == old(self).mem.image(),
            },
    {
        let mut i: u32 = 0;
        while i < REG_MAX_ENTRIES
            invariant
                self.wf(),
                old(self).same_registry(self),
                i <= REG_MAX_ENTRIES,
                self.mem.accesses() == old(self).mem.accesses(),
                self.mem.exclusive() ==> {
                    &&& self.mem.image() == old(self).mem.image()
                    &&& find_entry(self.mem.image(), i as int, region@, uri@, pid) == find_entry(
                        old(self).mem.image(),
                        0,
                        region@,
                        uri@,
                        pid,
                    )
                },
            decreases REG_MAX_ENTRIES - i,
        {
            let off: usize = REG_HEADER_SIZE + i as usize * REG_ENTRY_SIZE;
            if self.mem.load_u32(off + RE_ACTIVE) == RE_STATE_ACTIVE && self.mem.load_u32(
                off + RE_PID,
            ) == pid {
                let found_region: String = self.region_at(off);
                let found_uri: String = self.uri_at(off);
                if same_text(found_region.as_str(), region) && same_text(
                    found_uri.as_str(),
                    uri,
                ) {
                    self.mem.store_u64(off + RE_TIMESTAMP, ts);
                    assert(self.mem.accesses() == old(self).mem.accesses().push(
                        renews(i as int, ts),
                    ));
                    return true;
                }
            }
            i = i + 1;
        }
        false
    }

    /// Registers a topic in the first free entry, if there is one.
    fn claim(&mut self, region: &str, uri: &str, pid: u32, ts: u64)
        requires
            old(self).wf(),
        ensures
            final(self).wf(),
            old(self).same_registry(final(self)),
            exists|ops: Accesses|
                {
                    &&& final(self).mem.accesses() == old(self).mem.accesses() + ops
                    &&& #[trigger] takes_entry(ops, region@, uri@, pid, ts)
                },
            old(self).mem.exclusive() ==> final(self).mem.image() == match find_free_entry(
                old(self).mem.image(),
                0,
            ) {
                Some(i) => with_entry(old(self).mem.image(), i, region@, uri@, pid, ts),
                None => old(self).mem.image(),
            },
    {
        let region_bytes: Vec<u8> = write_fixed_str(region, RE_REGION_NAME_MAX);
        let uri_bytes: Vec<u8> = write_fixed_str(uri, RE_TOPIC_URI_MAX);
        let ghost mut tries: Accesses = Seq::empty();
        assert(old(self).mem.accesses() + tries =~= old(self).mem.accesses());
        let mut i: u32 = 0;
        while i < REG_MAX_ENTRIES
            invariant
                self.wf(),
                old(self).same_registry(self),
                i <= REG_MAX_ENTRIES,
                self.mem.accesses() == old(self).mem.accesses() + tries,
                tries.len() == i,
                forall|k: int| 0 <= k < i ==> tries_entry(#[trigger] tries[k], k, false),
                region_bytes@ == padded(
                    vstd::utf8::encode_utf8(region@),
                    RE_REGION_NAME_MAX as nat,
                ),
                uri_bytes@ == padded(vstd::utf8::encode_utf8(uri@), RE_TOPIC_URI_MAX as nat),
                self.mem.exclusive() ==> {
                    &&& self.mem.image() == old(self).mem.image()
                    &&& find_free_entry(self.mem.image(), i as int) == find_free_entry(
                        old(self).mem.image(),
                        0,
                    )
                },
            decreases REG_MAX_ENTRIES - i,
        {
            let off: usize = REG_HEADER_SIZE + i as usize * REG_ENTRY_SIZE;
            let swapped: Result<u32, u32> = self.mem.compare_exchange_u32(
                off + RE_ACTIVE,
                RE_STATE_FREE,
                RE_STATE_ACTIVE,
            );
            proof {
                tries = tries.push(
                    Access::Exchange32 {
                        off: entry_off(i as int) + RE_ACTIVE,
                        current: RE_STATE_FREE,
                        new: RE_STATE_ACTIVE,
                        found: swapped,
                    },
                );
                assert(self.mem.accesses() =~= old(self).mem.accesses() + tries);
            }
            if swapped.is_ok() {
                self.mem.store_u32(off + RE_PID, pid);
                self.mem.store_u64(off + RE_TIMESTAMP, ts);
                self.mem.write(off + RE_REGION_NAME, region_bytes.as_slice());
                self.mem.write(off + RE_TOPIC_URI, uri_bytes.as_slice());
                let before: u32 = self.mem.fetch_add_u32(RH_ENTRY_COUNT, 1);
                proof {
                    let ops = tries + entry_stores(i as int, region@, uri@, pid, ts, before);
                    assert(self.mem.accesses() =~= old(self).mem.accesses() + ops);
                    assert(claims_entry(tries, i as int));
                    assert(takes_entry(ops, region@, uri@, pid, ts));
                }
                return ;
            }
            i = i + 1;
        }
        assert(takes_entry(tries, region@, uri@, pid, ts));
    }

    /// Frees an entry that is in use, and counts it off.
    fn free_entry(&mut self, i: u32)
        requires
            old(self).wf(),
            i < REG_MAX_ENTRIES,
        ensures
            final(self).wf(),
            old(self).same_registry(final(self)),
            exists|ops: Accesses|
                {
                    &&& final(self).mem.accesses() == old(self).mem.accesses() + ops
                    &&& #[trigger] frees_entry(ops, i as int)
                },
            old(self).mem.exclusive() ==> final(self).mem.image() == (if entry_active(
                old(self).mem.image(),
                i as int,
            ) {
                without_entry(old(self).mem.image(), i as int)
            } else {
                old(self).mem.image()
            }),
    {
        let ghost m = self.mem.image();
        let off: usize = REG_HEADER_SIZE + i as usize * REG_ENTRY_SIZE;
        let swapped: Result<u32, u32> = self.mem.compare_exchange_u32(
            off + RE_ACTIVE,
            RE_STATE_ACTIVE,
            RE_STATE_FREE,
        );
        let ghost a = Access::Exchange32 {
            off: entry_off(i as int) + RE_ACTIVE,
            current: RE_STATE_ACTIVE,
            new: RE_STATE_FREE,
            found: swapped,
        };
        assert(self.mem.accesses() =~= old(self).mem.accesses() + seq![a]);
        assert(swapped is Err ==> frees_entry(seq![a], i as int));
        if swapped.is_ok() {
            let before: u32 = self.mem.fetch_sub_u32(RH_ENTRY_COUNT, 1);
            if before == 0 {
                self.mem.store_u32(RH_ENTRY_COUNT, 0);
            }
            proof {
                let ops = seq![a] + count_off(before);
                assert(self.mem.accesses() =~= old(self).mem.accesses() + ops);
                assert(ops.subrange(1, ops.len() as int) =~= count_off(before));
                assert(frees_entry(ops, i as int));
                if self.mem.exclusive() {
                    assert(self.mem.image() =~= without_entry(m, i as int));
                }
            }
        }
    }

    /// Takes all topics of a region and process out of the registry.
    pub fn unregister(&mut self, region: &str, pid: u32)
        requires
            old(self).wf(),
        ensures
            final(self).wf(),
            old(self).same_registry(final(self)),
            unregistered_all(
                old(self).mem.accesses(),
                final(self).mem.accesses(),
                region@,
                pid,
            ),
            old(self).mem.exclusive() ==> final(self).mem.image() == swept(
                old(self).mem.image(),
                REG_MAX_ENTRIES as nat,
                entries_of(old(self).mem.image(), region@, pid),
            ),
    {
        let ghost m = self.mem.image();
        let ghost gone = entries_of(m, region@, pid);
        let mut i: u32 = 0;
        let ghost mut parts: Seq<Accesses> = Seq::empty();
        let ghost first = self.mem.accesses();
        assert(first + reading::joined(parts) =~= first);
        while i < REG_MAX_ENTRIES
            invariant
                self.wf(),
                old(self).same_registry(self),
                i <= REG_MAX_ENTRIES,
                m == old(self).mem.image(),
                gone == entries_of(m, region@, pid),
                parts.len() == i,
                self.mem.accesses() == first + reading::joined(parts),
                unregisters_each(parts, region@, pid),
                self.mem.exclusive() ==> self.mem.image() == swept(m, i as nat, gone),
            decreases REG_MAX_ENTRIES - i,
        {
            proof {
                if self.mem.exclusive() {
                    lemma_swept(m, i as nat, gone);
                    lemma_entry_kept(m, self.mem.image(), i as int);
                    assert(entry_active(self.mem.image(), i as int) == entry_active(
                        m,
                        i as int,
                    ));
                }
            }
            let off: usize = REG_HEADER_SIZE + i as usize * REG_ENTRY_SIZE;
            let ghost mid = self.mem.accesses();
            let ghost none = Seq::<Access>::empty();
            let state: u32 = self.mem.look_u32(off + RE_ACTIVE);
            let ghost mut rest = none;
            if state == RE_STATE_ACTIVE {
                let of: u32 = self.mem.look_u32(off + RE_PID);
                let ghost of_look = seq![
                    Access::Look32 { off: entry_off(i as int) + RE_PID, found: of },
                ];
                let ghost mut of_rest = none;
                if of == pid {
                    let name: Vec<u8> = self.mem.copy(off + RE_REGION_NAME, RE_REGION_NAME_MAX);
                    let ghost name_look = seq![
                        Access::Copied { off: entry_off(i as int) + RE_REGION_NAME, found: name@ },
                    ];
                    let ghost mut freed = none;
                    let found: String = read_fixed_str(name.as_slice());
                    if same_text(found.as_str(), region) {
                        let ghost seen = self.mem.accesses();
                        self.free_entry(i);
                        proof {
                            freed = choose|ops: Accesses|
                                self.mem.accesses() == seen + ops && #[trigger] frees_entry(
                                    ops,
                                    i as int,
                                );
                        }
                    }
                    proof {
                        assert(unregisters_named(freed, i as int, name@, region@));
                        of_rest = name_look + freed;
                    }
                }
                proof {
                    assert(unregisters_of(of_rest, i as int, of, region@, pid));
                    rest = of_look + of_rest;
                }
            }
            let ghost ops = seq![state_look(i as int, state)] + rest;
            proof {
                assert(unregisters_in(rest, i as int, state, region@, pid));
                assert(unregisters(ops, i as int, region@, pid));
                assert(self.mem.accesses() =~= mid + ops);
            }
            proof {
                let longer = parts.push(ops);
                assert forall|k: int| 0 <= k < longer.len() implies #[trigger] unregisters(
                    longer[k],
                    k,
                    region@,
                    pid,
                ) by {
                    if k < parts.len() {
                        assert(unregisters(parts[k], k, region@, pid));
                    }
                }
                reading::lemma_joined_push(parts, ops);
                assert(self.mem.accesses() =~= first + reading::joined(longer));
                parts = longer;
            }
            i = i + 1;
        }
        assert(unregisters_each(parts, region@, pid));
    }

    /// Finds the topics whose URI matches a pattern.
    pub fn discover(&self, pattern: &str) -> (r: Vec<DiscoveredTopic>)
        requires
            self.wf(),
        ensures
            self.mem.exclusive() ==> r@.map_values(|d: DiscoveredTopic| topic_view(d))
                == discovered(self.mem.image(), REG_MAX_ENTRIES as nat, pattern@, None),
    {
        self.search(pattern, None)
    }

    /// Finds the topics whose URI matches a pattern and whose time is after
    /// `since_us`.
    pub fn discover_since(&self, pattern: &str, since_us: u64) -> (r: Vec<DiscoveredTopic>)
        requires
            self.wf(),
        ensures
            self.mem.exclusive() ==> r@.map_values(|d: DiscoveredTopic| topic_view(d))
                == discovered(
                self.mem.image(),
                REG_MAX_ENTRIES as nat,
                pattern@,
                Some(since_us),
            ),
    {
        self.search(pattern, Some(since_us))
    }

    fn search(&self, pattern: &str, since: Option<u64>) -> (r: Vec<DiscoveredTopic>)
        requires
            self.wf(),
        ensures
            self.mem.exclusive() ==> r@.map_values(|d: DiscoveredTopic| topic_view(d))
                == discovered(self.mem.image(), REG_MAX_ENTRIES as nat, pattern@, since),
    {
        let p: Pattern = Pattern::parse(pattern);
        let ghost m = self.mem.image();
        let ghost view = |d: DiscoveredTopic| topic_view(d);
        let mut r: Vec<DiscoveredTopic> = Vec::new();
        let mut i: u32 = 0;
        assert(r@.map_values(view) =~= discovered(m, 0, pattern@, since));
        while i < REG_MAX_ENTRIES
            invariant
                self.wf(),
                i <= REG_MAX_ENTRIES,
                m == self.mem.image(),
                view == (|d: DiscoveredTopic| topic_view(d)),
                forall|uri: Seq<char>|
                    #[trigger] p.accepts(uri) == pattern_matches(pattern@, uri),
                self.mem.exclusive() ==> r@.map_values(view) == discovered(
                    m,
                    i as nat,
                    pattern@,
                    since,
                ),
            decreases REG_MAX_ENTRIES - i,
        {
            let off: usize = REG_HEADER_SIZE + i as usize * REG_ENTRY_SIZE;
            if self.mem.load_u32(off + RE_ACTIVE) == RE_STATE_ACTIVE {
                let timestamp_us: u64 = self.mem.load_u64(off + RE_TIMESTAMP);
                let newer: bool = match since {
                    Some(t) => timestamp_us > t,
                    None => true,
                };
                if newer {
                    let uri: String = self.uri_at(off);
                    let hit: bool = p.matches_uri(uri.as_str());
                    if hit {
                        let region: String = self.region_at(off);
                        let pid: u32 = self.mem.load_u32(off + RE_PID);
                        let d: DiscoveredTopic = DiscoveredTopic {
                            region,
                            uri,
                            pid,
                            timestamp_us,
                        };
                        let ghost before = r@;
                        r.push(d);
                        assert(r@.map_values(view) =~= before.map_values(view).push(
                            topic_view(d),
                        ));
                    }
                }
            }
            i = i + 1;
        }
        r
    }

    /// Takes the topics out of the registry whose time is more than `timeout_us`
    /// before `now`. Without a clock nothing happens.
    pub fn prune_stale(&mut self, now: Option<u64>, timeout_us: u64)
        requires
            old(self).wf(),
        ensures
            final(self).wf(),
            old(self).same_registry(final(self)),
            match now {
                None => *final(self) == *old(self),
                Some(t) => pruned_all(
                    old(self).mem.accesses(),
                    final(self).mem.accesses(),
                    cutoff_of(t, timeout_us),
                ),
            },
            old(self).mem.exclusive() ==> final(self).mem.image() == match now {
                None => old(self).mem.image(),
                Some(t) => swept(
                    old(self).mem.image(),
                    REG_MAX_ENTRIES as nat,
                    entries_before(old(self).mem.image(), cutoff_of(t, timeout_us)),
                ),
            },
    {
        let t: u64 = match now {
            None => {
                return ;
            },
            Some(t) => t,
        };
        let cutoff: u64 = t.saturating_sub(timeout_us);
        let ghost m = self.mem.image();
        let ghost gone = entries_before(m, cutoff);
        let mut i: u32 = 0;
        let ghost mut parts: Seq<Accesses> = Seq::empty();
        let ghost first = self.mem.accesses();
        assert(first + reading::joined(parts) =~= first);
        while i < REG_MAX_ENTRIES
            invariant
                self.wf(),
                old(self).same_registry(self),
                i <= REG_MAX_ENTRIES,
                m == old(self).mem.image(),
                gone == entries_before(m, cutoff),
                parts.len() == i,
                self.mem.accesses() == first + reading::joined(parts),
                prunes_each(parts, cutoff),
                self.mem.exclusive() ==> self.mem.image() == swept(m, i as nat, gone),
            decreases REG_MAX_ENTRIES - i,
        {
            proof {
                if self.mem.exclusive() {
                    lemma_swept(m, i as nat, gone);
                    lemma_entry_kept(m, self.mem.image(), i as int);
                    assert(entry_active(self.mem.image(), i as int) == entry_active(
                        m,
                        i as int,
                    ));
                }
            }
            let off: usize = REG_HEADER_SIZE + i as usize * REG_ENTRY_SIZE;
            let ghost mid = self.mem.accesses();
            let ghost none = Seq::<Access>::empty();
            let state: u32 = self.mem.look_u32(off + RE_ACTIVE);
            let ghost mut rest = none;
            if state == RE_STATE_ACTIVE {
                let at: u64 = self.mem.look_u64(off + RE_TIMESTAMP);
                let ghost at_look = seq![
                    Access::Look64 { off: entry_off(i as int) + RE_TIMESTAMP, found: at },
                ];
                let ghost mut freed = none;
                if at < cutoff {
                    let ghost seen = self.mem.accesses();
                    self.free_entry(i);
                    proof {
                        freed = choose|ops: Accesses|
                            self.mem.accesses() == seen + ops && #[trigger] frees_entry(
                                ops,
                                i as int,
                            );
                    }
                }
                proof {
                    assert(prunes_since(freed, i as int, at, cutoff));
                    rest = at_look + freed;
                }
            }
            let ghost ops = seq![state_look(i as int, state)] + rest;
            proof {
                assert(prunes_in(rest, i as int, state, cutoff));
                assert(prunes(ops, i as int, cutoff));
                assert(self.mem.accesses() =~= mid + ops);
            }
            proof {
                let longer = parts.push(ops);
                assert forall|k: int| 0 <= k < longer.len() implies #[trigger] prunes(
                    longer[k],
                    k,
                    cutoff,
                ) by {
                    if k < parts.len() {
                        assert(prunes(parts[k], k, cutoff));
                    }
                }
                reading::lemma_joined_push(parts, ops);
                assert(self.mem.accesses() =~= first + reading::joined(longer));
                parts = longer;
            }
            i = i + 1;
        }
        assert(prunes_each(parts, cutoff));
    }
}

/// Finds the live topics whose URI matches a pattern: topics that have not been
/// heard of for ten seconds are taken out first.
pub fn discover<M: SharedMemory>(reg: &mut Registry<M>, pattern: &str, now: Option<u64>) -> (r: Vec<
    DiscoveredTopic,
>)
    requires
        old(reg).wf(),
    ensures
        final(reg).wf(),
        old(reg).same_registry(final(reg)),
        match now {
            None => *final(reg) == *old(reg),
            Some(t) => pruned_all(
                old(reg).mem.accesses(),
                final(reg).mem.accesses(),
                cutoff_of(t, DISCOVER_STALE_US),
            ),
        },
        old(reg).mem.exclusive() ==> {
            &&& final(reg).mem.image() == match now {
                None => old(reg).mem.image(),
                Some(t) => swept(
                    old(reg).mem.image(),
                    REG_MAX_ENTRIES as nat,
                    entries_before(old(reg).mem.image(), cutoff_of(t, DISCOVER_STALE_US)),
                ),
            }
            &&& r@.map_values(|d: DiscoveredTopic| topic_view(d)) == discovered(
                final(reg).mem.image(),
                REG_MAX_ENTRIES as nat,
                pattern@,
                None,
            )
        },
{
    reg.prune_stale(now, DISCOVER_STALE_US);
    reg.discover(pattern)
}

/// A name without a zero byte that is short enough reads back from its padded
/// field as it was.
pub proof fn law_padded_name_reads_back(s: Seq<char>, len: nat)
    requires
        vstd::utf8::encode_utf8(s).len() < len,
        forall|i: int|
            0 <= i < vstd::utf8::encode_utf8(s).len() ==> #[trigger] vstd::utf8::encode_utf8(s)[i]
                != 0,
    ensures
        fixed_text(padded(vstd::utf8::encode_utf8(s), len)) == s,
{
    let b = vstd::utf8::encode_utf8(s);
    lemma_up_to_zero(padded(b, len), b);
    vstd::utf8::encode_utf8_valid_utf8(s);
    vstd::utf8::encode_utf8_decode_utf8(s);
}

/// Text ends at the first zero.
pub proof fn lemma_up_to_zero(p: Seq<u8>, b: Seq<u8>)
    requires
        b.len() < p.len(),
        p[b.len() as int] == 0,
        forall|i: int| 0 <= i < b.len() ==> p[i] == #[trigger] b[i] && b[i] != 0,
    ensures
        up_to_zero(p) == b,
    decreases b.len(),
{
    if b.len() == 0 {
        assert(up_to_zero(p) =~= b);
    } else {
        assert(p[0] == b[0]);
        let p1 = p.subrange(1, p.len() as int);
        let b1 = b.subrange(1, b.len() as int);
        assert forall|i: int| 0 <= i < b1.len() implies p1[i] == #[trigger] b1[i] && b1[i] != 0 by {
            assert(b1[i] == b[i + 1]);
        }
        lemma_up_to_zero(p1, b1);
        assert(seq![b[0]] + b1 =~= b);
    }
}

/// What is found is there, and what is not found is not.
pub proof fn lemma_find_entry(m: Seq<u8>, from: int, region: Seq<char>, uri: Seq<char>, pid: u32)
    requires
        0 <= from,
    ensures
        match find_entry(m, from, region, uri, pid) {
            Some(i) => from <= i < REG_MAX_ENTRIES && entry_is(m, i, region, uri, pid)
                && forall|j: int|
                from <= j < i ==> !#[trigger] entry_is(m, j, region, uri, pid),
            None => forall|j: int|
                from <= j < REG_MAX_ENTRIES ==> !#[trigger] entry_is(m, j, region, uri, pid),
        },
        match find_free_entry(m, from) {
            Some(i) => from <= i < REG_MAX_ENTRIES && entry_free(m, i),
            None => true,
        },
    decreases REG_MAX_ENTRIES - from,
{
    if from < REG_MAX_ENTRIES {
        lemma_find_entry(m, from + 1, region, uri, pid);
    }
}

/// What is in the first `n` entries is in what is discovered.
pub proof fn lemma_discovered(m: Seq<u8>, n: nat, pattern: Seq<char>, since: Option<u64>, i: int)
    requires
        0 <= i < n,
        entry_active(m, i),
        since matches Some(t) ==> entry_time(m, i) > t,
        pattern_matches(pattern, entry_uri(m, i)),
    ensures
        discovered(m, n, pattern, since).contains(
            (entry_region(m, i), entry_uri(m, i), entry_pid(m, i), entry_time(m, i)),
        ),
    decreases n,
{
    let item = (entry_region(m, i), entry_uri(m, i), entry_pid(m, i), entry_time(m, i));
    let all = discovered(m, n, pattern, since);
    if i < n - 1 {
        lemma_discovered(m, (n - 1) as nat, pattern, since, i);
        let before = discovered(m, (n - 1) as nat, pattern, since);
        let k = choose|k: int| 0 <= k < before.len() && before[k] == item;
        assert(all[k] == item);
    } else {
        assert(all[all.len() - 1] == item);
    }
}

/// A name that can be registered: short enough for its field, without a zero.
pub open spec fn name_fits(s: Seq<char>, max: nat) -> bool {
    &&& vstd::utf8::encode_utf8(s).len() < max
    &&& forall|i: int|
        0 <= i < vstd::utf8::encode_utf8(s).len() ==> #[trigger] vstd::utf8::encode_utf8(s)[i] != 0
}

/// A registered topic is discovered, with its region, process and time, by
/// every pattern that its URI matches. It needs a free entry unless it is
/// registered already.
pub proof fn law_register_then_discover(
    m: Seq<u8>,
    region: Seq<char>,
    uri: Seq<char>,
    pid: u32,
    now: u64,
    pattern: Seq<char>,
)
    requires
        REG_TOTAL_SIZE <= m.len(),
        name_fits(region, RE_REGION_NAME_MAX as nat),
        name_fits(uri, RE_TOPIC_URI_MAX as nat),
        find_entry(m, 0, region, uri, pid) is Some || find_free_entry(m, 0) is Some,
        pattern_matches(pattern, uri),
    ensures
        discovered(
            after_register(m, region, uri, pid, now),
            REG_MAX_ENTRIES as nat,
            pattern,
            None,
        ).contains((region, uri, pid, now)),
{
    let n = after_register(m, region, uri, pid, now);
    lemma_find_entry(m, 0, region, uri, pid);
    match find_entry(m, 0, region, uri, pid) {
        Some(i) => {
            let off = entry_off(i);
            assert(memory::bytes_at(n, off + RE_REGION_NAME, RE_REGION_NAME_MAX as int)
                == memory::bytes_at(m, off + RE_REGION_NAME, RE_REGION_NAME_MAX as int));
            assert(memory::bytes_at(n, off + RE_TOPIC_URI, RE_TOPIC_URI_MAX as int)
                == memory::bytes_at(m, off + RE_TOPIC_URI, RE_TOPIC_URI_MAX as int));
            lemma_discovered(n, REG_MAX_ENTRIES as nat, pattern, None, i);
        },
        None => {
            let i = find_free_entry(m, 0)->0;
            lemma_with_entry(m, i, region, uri, pid, now);
            lemma_discovered(n, REG_MAX_ENTRIES as nat, pattern, None, i);
        },
    }
}

/// What a filled entry holds.
pub proof fn lemma_with_entry(
    m: Seq<u8>,
    i: int,
    region: Seq<char>,
    uri: Seq<char>,
    pid: u32,
    now: u64,
)
    requires
        REG_TOTAL_SIZE <= m.len(),
        0 <= i < REG_MAX_ENTRIES,
        name_fits(region, RE_REGION_NAME_MAX as nat),
        name_fits(uri, RE_TOPIC_URI_MAX as nat),
    ensures
        entry_is(with_entry(m, i, region, uri, pid, now), i, region, uri, pid),
        entry_time(with_entry(m, i, region, uri, pid, now), i) == now,
{
    let n = with_entry(m, i, region, uri, pid, now);
    let off = entry_off(i);
    let a = padded(vstd::utf8::encode_utf8(region), RE_REGION_NAME_MAX as nat);
    let b = padded(vstd::utf8::encode_utf8(uri), RE_TOPIC_URI_MAX as nat);
    law_padded_name_reads_back(region, RE_REGION_NAME_MAX as nat);
    law_padded_name_reads_back(uri, RE_TOPIC_URI_MAX as nat);
    assert(a.subrange(0, RE_REGION_NAME_MAX as int) =~= a);
    assert(b.subrange(0, RE_TOPIC_URI_MAX as int) =~= b);
    assert(memory::bytes_at(n, off + RE_REGION_NAME, RE_REGION_NAME_MAX as int) == a);
    assert(memory::bytes_at(n, off + RE_TOPIC_URI, RE_TOPIC_URI_MAX as int) == b);
}

/// Registering again takes no further entry: it renews the time of the entry
/// that is there.
pub proof fn law_register_is_idempotent(
    m: Seq<u8>,
    region: Seq<char>,
    uri: Seq<char>,
    pid: u32,
    now: u64,
)
    requires
        REG_TOTAL_SIZE <= m.len(),
        name_fits(region, RE_REGION_NAME_MAX as nat),
        name_fits(uri, RE_TOPIC_URI_MAX as nat),
        find_entry(m, 0, region, uri, pid) is None,
        find_free_entry(m, 0) is Some,
    ensures
        find_entry(after_register(m, region, uri, pid, now), 0, region, uri, pid) is Some,
{
    lemma_find_entry(m, 0, region, uri, pid);
    let i = find_free_entry(m, 0)->0;
    lemma_with_entry(m, i, region, uri, pid, now);
    let n = after_register(m, region, uri, pid, now);
    lemma_find_entry(n, 0, region, uri, pid);
    assert(entry_is(n, i, region, uri, pid));
}

/// A sweep leaves no entry in use that is to go, and every other entry as it
/// was.
pub proof fn law_sweep(m: Seq<u8>, gone: spec_fn(int) -> bool, i: int)
    requires
        REG_TOTAL_SIZE <= m.len(),
        0 <= i < REG_MAX_ENTRIES,
    ensures
        ({
            let n = swept(m, REG_MAX_ENTRIES as nat, gone);
            &&& gone(i) ==> entry_free(n, i)
            &&& !gone(i) ==> entry_active(n, i) == entry_active(m, i)
            &&& entry_pid(n, i) == entry_pid(m, i)
            &&& entry_time(n, i) == entry_time(m, i)
            &&& entry_region(n, i) == entry_region(m, i)
            &&& entry_uri(n, i) == entry_uri(m, i)
        }),
{
    lemma_swept(m, REG_MAX_ENTRIES as nat, gone);
    lemma_entry_kept(m, swept(m, REG_MAX_ENTRIES as nat, gone), i);
    lemma_swept_state(m, REG_MAX_ENTRIES as nat, gone, i);
}

proof fn lemma_swept_state(m: Seq<u8>, n: nat, gone: spec_fn(int) -> bool, i: int)
    requires
        REG_TOTAL_SIZE <= m.len(),
        0 <= i < n <= REG_MAX_ENTRIES,
    ensures
        gone(i) ==> entry_free(swept(m, n, gone), i),
        !gone(i) ==> entry_active(swept(m, n, gone), i) == entry_active(m, i),
    decreases n,
{
    lemma_swept(m, (n - 1) as nat, gone);
    let a = swept(m, (n - 1) as nat, gone);
    if i < n - 1 {
        lemma_swept_state(m, (n - 1) as nat, gone, i);
    } else {
        assert(memory::u32_at(a, entry_off(i)) == memory::u32_at(m, entry_off(i)));
    }
}

/// A registry made in fresh memory is one, and is empty.
pub proof fn law_new_registry_is_empty(m: Seq<u8>, pattern: Seq<char>, since: Option<u64>)
    requires
        REG_TOTAL_SIZE <= m.len(),
        forall|i: int| 0 <= i < m.len() ==> #[trigger] m[i] == 0,
    ensures
        is_registry(new_registry(m)),
        discovered(new_registry(m), REG_MAX_ENTRIES as nat, pattern, since).len() == 0,
{
    let n = new_registry(m);
    assert(memory::bytes_at(n, RH_MAGIC as int, 8) =~= reg_magic());
    assert forall|i: int| 0 <= i < REG_MAX_ENTRIES implies !#[trigger] entry_active(n, i) by {
        let o = entry_off(i) + RE_ACTIVE;
        assert(n[o] == m[o] && n[o + 1] == m[o + 1] && n[o + 2] == m[o + 2] && n[o + 3] == m[o
            + 3]);
        assert(m[o] == 0 && m[o + 1] == 0 && m[o + 2] == 0 && m[o + 3] == 0);
    }
    lemma_none_discovered(n, REG_MAX_ENTRIES as nat, pattern, since);
}

proof fn lemma_none_discovered(m: Seq<u8>, n: nat, pattern: Seq<char>, since: Option<u64>)
    requires
        n <= REG_MAX_ENTRIES,
        forall|i: int| 0 <= i < n ==> !#[trigger] entry_active(m, i),
    ensures
        discovered(m, n, pattern, since).len() == 0,
    decreases n,
{
    if n > 0 {
        lemma_none_discovered(m, (n - 1) as nat, pattern, since);
        assert(!entry_active(m, n - 1));
    }
}

/// One step in the life of a registry: a registration, or entries that are freed.
pub open spec fn registry_step(m: Seq<u8>, n: Seq<u8>) -> bool {
    ||| exists|region: Seq<char>, uri: Seq<char>, pid: u32, now: u64|
        n == #[trigger] after_register(m, region, uri, pid, now)
    ||| exists|k: nat, gone: spec_fn(int) -> bool|
        k <= REG_MAX_ENTRIES && n == #[trigger] swept(m, k, gone)
}

/// A step keeps the header, so that the registry can be opened again.
proof fn lemma_step_keeps_registry(m: Seq<u8>, n: Seq<u8>)
    requires
        is_registry(m),
        registry_step(m, n),
    ensures
        is_registry(n),
        n.len() == m.len(),
{
    if exists|region: Seq<char>, uri: Seq<char>, pid: u32, now: u64|
        n == #[trigger] after_register(m, region, uri, pid, now) {
        let (region, uri, pid, now) = choose|
            region: Seq<char>,
            uri: Seq<char>,
            pid: u32,
            now: u64,
        |
            n == #[trigger] after_register(m, region, uri, pid, now);
        lemma_find_entry(m, 0, region, uri, pid);
        lemma_find_free(m, 0);
        lemma_register_keeps_header(m, region, uri, pid, now);
    } else {
        let (k, gone) = choose|k: nat, gone: spec_fn(int) -> bool|
            k <= REG_MAX_ENTRIES && n == #[trigger] swept(m, k, gone);
        lemma_sweep_keeps_header(m, k, gone);
    }
    assert(memory::bytes_at(n, RH_MAGIC as int, 8) =~= memory::bytes_at(m, RH_MAGIC as int, 8));
}

proof fn lemma_find_free(m: Seq<u8>, from: int)
    requires
        0 <= from,
    ensures
        find_free_entry(m, from) matches Some(i) ==> from <= i < REG_MAX_ENTRIES,
    decreases REG_MAX_ENTRIES - from,
{
    if from < REG_MAX_ENTRIES {
        lemma_find_free(m, from + 1);
    }
}

/// Registering stores behind the magic bytes and the version.
proof fn lemma_register_keeps_header(
    m: Seq<u8>,
    region: Seq<char>,
    uri: Seq<char>,
    pid: u32,
    now: u64,
)
    requires
        REG_TOTAL_SIZE <= m.len(),
        find_entry(m, 0, region, uri, pid) matches Some(i) ==> 0 <= i < REG_MAX_ENTRIES,
        find_free_entry(m, 0) matches Some(i) ==> 0 <= i < REG_MAX_ENTRIES,
    ensures
        after_register(m, region, uri, pid, now).len() == m.len(),
        forall|i: int| 0 <= i < 12 ==> #[trigger] after_register(m, region, uri, pid, now)[i]
            == m[i],
{
}

/// Freeing entries stores behind the magic bytes and the version.
proof fn lemma_sweep_keeps_header(m: Seq<u8>, n: nat, gone: spec_fn(int) -> bool)
    requires
        n <= REG_MAX_ENTRIES,
        REG_TOTAL_SIZE <= m.len(),
    ensures
        swept(m, n, gone).len() == m.len(),
        forall|i: int| 0 <= i < 12 ==> #[trigger] swept(m, n, gone)[i] == m[i],
    decreases n,
{
    if n > 0 {
        lemma_sweep_keeps_header(m, (n - 1) as nat, gone);
    }
}

/// A registry can be opened again at any moment of its life, through any handle,
/// and loses nothing by it: whatever was registered and freed, the segment holds
/// a registry, and an opened one is the segment as it is.
pub proof fn law_registry_can_be_opened_again(images: Seq<Seq<u8>>, i: int)
    requires
        0 <= i < images.len(),
        is_registry(images[0]),
        forall|k: int|
            0 <= k < images.len() - 1 ==> registry_step(images[k], #[trigger] images[k + 1]),
    ensures
        is_registry(images[i]),
        images[i].len() == images[0].len(),
    decreases i,
{
    if i > 0 {
        law_registry_can_be_opened_again(images, i - 1);
        assert(registry_step(images[i - 1], images[(i - 1) + 1]));
        lemma_step_keeps_registry(images[i - 1], images[i]);
    }
}

/// What opening a registry gives, whatever was registered and freed through any
/// handle since it was made: one at the path asked for, in which every search
/// finds what is registered.
pub proof fn law_open_call<M: SharedMemory>(
    images: Seq<Seq<u8>>,
    mem: M,
    path: String,
    r: Result<Registry<M>, Error>,
    pattern: Seq<char>,
    since: Option<u64>,
)
    requires
        images.len() > 0,
        is_registry(images[0]),
        forall|k: int|
            0 <= k < images.len() - 1 ==> registry_step(images[k], #[trigger] images[k + 1]),
        mem.exclusive(),
        mem.image() == images.last(),
        r matches Ok(reg) ==> reg.wf() && reg.mem == mem && reg.path == path,
        r is Ok <==> is_registry(mem.image()),
    ensures
        r is Ok,
        (r->Ok_0).wf(),
        (r->Ok_0).path == path,
        discovered((r->Ok_0).mem.image(), REG_MAX_ENTRIES as nat, pattern, since) == discovered(
            images.last(),
            REG_MAX_ENTRIES as nat,
            pattern,
            since,
        ),
{
    law_registry_can_be_opened_again(images, images.len() - 1);
}

/// What making a registry anew gives: one at the path asked for, in which no
/// search finds anything, and which can be opened.
pub proof fn law_create_call<M: SharedMemory>(
    mem: M,
    path: String,
    reg: Registry<M>,
    pattern: Seq<char>,
    since: Option<u64>,
)
    requires
        REG_TOTAL_SIZE <= mem.image().len() <= usize::MAX,
        mem.exclusive(),
        forall|i: int| 0 <= i < mem.image().len() ==> #[trigger] mem.image()[i] == 0,
        reg.path == path,
        reg.mem.image() == new_registry(mem.image()),
    ensures
        reg.wf(),
        reg.path == path,
        discovered(reg.mem.image(), REG_MAX_ENTRIES as nat, pattern, since).len() == 0,
        is_registry(reg.mem.image()),
{
    law_new_registry_is_empty(mem.image(), pattern, since);
}

/// The pattern `*` finds exactly the entries that are registered.
pub proof fn law_star_finds_every_entry(
    m: Seq<u8>,
    region: Seq<char>,
    uri: Seq<char>,
    pid: u32,
    time: u64,
)
    ensures
        discovered(m, REG_MAX_ENTRIES as nat, seq!['*'], None).contains((region, uri, pid, time))
            <==> exists|i: int|
            0 <= i < REG_MAX_ENTRIES && #[trigger] entry_is(m, i, region, uri, pid) && entry_time(
                m,
                i,
            ) == time,
{
    let all = discovered(m, REG_MAX_ENTRIES as nat, seq!['*'], None);
    lemma_star(uri);
    if exists|i: int|
        0 <= i < REG_MAX_ENTRIES && #[trigger] entry_is(m, i, region, uri, pid) && entry_time(
            m,
            i,
        ) == time {
        let i = choose|i: int|
            0 <= i < REG_MAX_ENTRIES && #[trigger] entry_is(m, i, region, uri, pid) && entry_time(
                m,
                i,
            ) == time;
        lemma_discovered(m, REG_MAX_ENTRIES as nat, seq!['*'], None, i);
    }
    if all.contains((region, uri, pid, time)) {
        let k = choose|k: int| 0 <= k < all.len() && all[k] == (region, uri, pid, time);
        lemma_discovered_is_registered(m, REG_MAX_ENTRIES as nat, seq!['*'], k);
    }
}

proof fn lemma_star(uri: Seq<char>)
    ensures
        pattern_matches(seq!['*'], uri),
{
    assert(seq!['*'].drop_last() =~= Seq::<char>::empty());
    assert(Seq::<char>::empty() =~= uri.subrange(0, 0));
}

proof fn lemma_discovered_is_registered(m: Seq<u8>, n: nat, pattern: Seq<char>, k: int)
    requires
        n <= REG_MAX_ENTRIES,
        0 <= k < discovered(m, n, pattern, None).len(),
    ensures
        ({
            let d = discovered(m, n, pattern, None)[k];
            exists|i: int|
                0 <= i < n && #[trigger] entry_is(m, i, d.0, d.1, d.2) && entry_time(m, i) == d.3
        }),
    decreases n,
{
    if n > 0 {
        let before = discovered(m, (n - 1) as nat, pattern, None);
        let d = discovered(m, n, pattern, None)[k];
        if k < before.len() {
            lemma_discovered_is_registered(m, (n - 1) as nat, pattern, k);
        } else {
            assert(entry_is(m, n - 1, d.0, d.1, d.2));
        }
    }
}

} // verus!
