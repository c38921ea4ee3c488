//! How numbers and values are written as bytes and as text, and what the defaults are.

use crate::ffi::{self, CrossbarConfig};
use crate::memory;
use crate::pod::{self, Pod};
use crate::protocol::config;
use crate::protocol::header;
use crate::text;
use crate::transport::shm::notify::{self, WaitAction};
use crate::transport::shm::pool_pubsub;
use crate::transport::shm::pubsub;
use crate::transport::shm::pubsub_rpc;
use crate::transport::shm::region;
use vstd::prelude::*;

verus! {

/// The number that digits make, the first one counting least.
pub open spec fn number(digits: Seq<u8>) -> int
    decreases digits.len(),
{
    if digits.len() == 0 {
        0
    } else {
        digits[0] + 256 * number(digits.subrange(1, digits.len() as int))
    }
}

proof fn lemma_two(b: Seq<u8>)
    requires
        b.len() == 2,
    ensures
        number(b) == b[0] + 256 * b[1],
{
    reveal_with_fuel(number, 3);
}

#[verifier::rlimit(50)]
proof fn lemma_four(b: Seq<u8>)
    requires
        b.len() == 4,
    ensures
        number(b) == b[0] + 256 * b[1] + 65536 * b[2] + 16777216 * b[3],
{
    let rest = b.subrange(1, 4).subrange(1, 3);
    assert(rest =~= b.subrange(2, 4));
    lemma_two(rest);
    reveal_with_fuel(number, 3);
}

#[verifier::rlimit(50)]
proof fn lemma_eight(b: Seq<u8>)
    requires
        b.len() == 8,
    ensures
        number(b) == number(b.subrange(0, 4)) + 0x1_0000_0000 * number(b.subrange(4, 8)),
{
    lemma_four(b.subrange(0, 4));
    let r1 = b.subrange(1, 8);
    let r2 = r1.subrange(1, 7);
    let r3 = r2.subrange(1, 6);
    let r4 = r3.subrange(1, 5);
    assert(r4 =~= b.subrange(4, 8));
    assert(number(b) == b[0] + 256 * number(r1));
    assert(number(r1) == r1[0] + 256 * number(r2));
    assert(number(r2) == r2[0] + 256 * number(r3));
    assert(number(r3) == r3[0] + 256 * number(r4));
}

/// Numbers in a segment are little-endian: the first byte counts least.
pub proof fn law_numbers_are_little_endian(m: Seq<u8>, off: int)
    requires
        0 <= off,
        off + 8 <= m.len(),
    ensures
        memory::u16_at(m, off) == number(m.subrange(off, off + 2)),
        memory::u32_at(m, off) == number(m.subrange(off, off + 4)),
        memory::u64_at(m, off) == number(m.subrange(off, off + 8)),
{
    let b = m.subrange(off, off + 8);
    lemma_two(m.subrange(off, off + 2));
    lemma_four(m.subrange(off, off + 4));
    lemma_four(m.subrange(off + 4, off + 8));
    lemma_eight(b);
    assert(b.subrange(0, 4) =~= m.subrange(off, off + 4));
    assert(b.subrange(4, 8) =~= m.subrange(off + 4, off + 8));
}

/// Bytes that are written stand where they were written, and nothing else changes.
pub proof fn law_bytes_stand_where_they_are_written(m: Seq<u8>, off: int, b: Seq<u8>, i: int)
    requires
        0 <= off,
        off + b.len() <= m.len(),
        0 <= i < m.len(),
    ensures
        memory::put(m, off, b).len() == m.len(),
        memory::put(m, off, b)[i] == if off <= i < off + b.len() {
            b[i - off]
        } else {
            m[i]
        },
{
}

/// Sums and differences wrap around where numbers end, and the larger one of two numbers is
/// one of them that neither exceeds.
pub proof fn law_numbers_wrap_around(a: u32, b: u32, c: u64, d: u64)
    ensures
        memory::wrapping_sum_u32(a, b) == (a + b) % 0x1_0000_0000,
        memory::wrapping_difference_u32(a, b) == (a - b) % 0x1_0000_0000,
        memory::wrapping_sum_u64(c, d) == (c + d) % 0x1_0000_0000_0000_0000,
        memory::larger_u64(c, d) >= c,
        memory::larger_u64(c, d) >= d,
        memory::larger_u64(c, d) == c || memory::larger_u64(c, d) == d,
{
}

/// The bytes of an integer are its little-endian digits, for a negative one those of its
/// complement to the next power: they make its value modulo that power.
#[verifier::rlimit(40)]
pub proof fn law_integers_are_written_little_endian(
    a: u8,
    b: i8,
    c: u16,
    d: i16,
    e: u32,
    f: i32,
    g: u64,
    h: i64,
)
    ensures
        number(a.encode()) == a,
        number(b.encode()) == b as int % 0x100,
        number(c.encode()) == c,
        number(d.encode()) == d as int % 0x1_0000,
        number(e.encode()) == e,
        number(f.encode()) == f as int % 0x1_0000_0000,
        number(g.encode()) == g,
        number(h.encode()) == h as int % 0x1_0000_0000_0000_0000,
        a.encode().len() == 1,
        b.encode().len() == 1,
        c.encode().len() == 2,
        d.encode().len() == 2,
        e.encode().len() == 4,
        f.encode().len() == 4,
        g.encode().len() == 8,
        h.encode().len() == 8,
{
    reveal_with_fuel(number, 2);
    lemma_le16(c);
    lemma_le16(pod::twos16(d));
    lemma_le32(e);
    lemma_le32(pod::twos32(f));
    lemma_le64(g);
    lemma_le64(pod::twos64(h));
}

proof fn lemma_le16(v: u16)
    ensures
        number(memory::le16(v)) == v,
        memory::le16(v).len() == 2,
{
    lemma_two(memory::le16(v));
}

#[verifier::rlimit(50)]
proof fn lemma_le32(v: u32)
    ensures
        number(memory::le32(v)) == v,
        memory::le32(v).len() == 4,
{
    lemma_four(memory::le32(v));
}

#[verifier::rlimit(50)]
proof fn lemma_le64(v: u64)
    ensures
        number(memory::le64(v)) == v,
        memory::le64(v).len() == 8,
{
    let lo = (v % 4294967296) as u32;
    let hi = (v / 4294967296) as u32;
    let b = memory::le64(v);
    lemma_le32(lo);
    lemma_le32(hi);
    lemma_eight(b);
    assert(b.subrange(0, 4) =~= memory::le32(lo));
    assert(b.subrange(4, 8) =~= memory::le32(hi));
}

/// A wide integer is its lower half and behind that its upper half; and values of an array
/// come one behind the other, in their order.
#[verifier::rlimit(50)]
pub proof fn law_wide_values<E: Pod>(v: u128, w: i128, s: Seq<E>, x: E)
    ensures
        v.encode().len() == 16,
        number(v.encode().subrange(0, 8)) + 0x1_0000_0000_0000_0000 * number(
            v.encode().subrange(8, 16),
        ) == v,
        w.encode().len() == 16,
        number(w.encode().subrange(0, 8)) + 0x1_0000_0000_0000_0000 * number(
            w.encode().subrange(8, 16),
        ) == w as int % 0x1_0000_0000_0000_0000_0000_0000_0000_0000int,
        pod::flat(Seq::<E>::empty()) == Seq::<u8>::empty(),
        pod::flat(s.push(x)) == pod::flat(s) + x.encode(),
{
    lemma_le128(v);
    lemma_le128(pod::twos128(w));
    assert(s.push(x).drop_last() =~= s);
}

#[verifier::rlimit(50)]
proof fn lemma_le128(v: u128)
    ensures
        pod::le128(v).len() == 16,
        number(pod::le128(v).subrange(0, 8)) + 0x1_0000_0000_0000_0000 * number(
            pod::le128(v).subrange(8, 16),
        ) == v,
{
    let lo = (v % 0x1_0000_0000_0000_0000) as u64;
    let hi = (v / 0x1_0000_0000_0000_0000) as u64;
    lemma_le64(lo);
    lemma_le64(hi);
    assert(pod::le128(v).subrange(0, 8) =~= memory::le64(lo));
    assert(pod::le128(v).subrange(8, 16) =~= memory::le64(hi));
}

/// An integer is aligned to its own size, and an array as one of its values is.
pub proof fn law_alignment<T: Pod>(x: T)
    ensures
        <u8 as Pod>::align() == <u8 as Pod>::size() == 1,
        <i8 as Pod>::align() == <i8 as Pod>::size() == 1,
        <u16 as Pod>::align() == <u16 as Pod>::size() == 2,
        <i16 as Pod>::align() == <i16 as Pod>::size() == 2,
        <u32 as Pod>::align() == <u32 as Pod>::size() == 4,
        <i32 as Pod>::align() == <i32 as Pod>::size() == 4,
        <u64 as Pod>::align() == <u64 as Pod>::size() == 8,
        <i64 as Pod>::align() == <i64 as Pod>::size() == 8,
        <u128 as Pod>::align() == <u128 as Pod>::size() == 16,
        <i128 as Pod>::align() == <i128 as Pod>::size() == 16,
        <[T; 3] as Pod>::align() == T::align(),
        <[T; 3] as Pod>::size() == 3 * T::size(),
        x.encode().len() == T::size(),
{
    x.encode_size();
}

/// The number that decimal digits make, the last one counting least.
pub open spec fn value(s: Seq<char>) -> int
    decreases s.len(),
{
    if s.len() == 0 {
        0
    } else {
        10 * value(s.drop_last()) + (s.last() as int - '0' as int)
    }
}

/// The decimal text of a number is made of digits that make the number, without a zero in
/// front unless the number is zero.
pub proof fn law_decimal_text(n: nat)
    ensures
        ({
            let s = text::decimal(n);
            &&& s.len() > 0
            &&& value(s) == n
            &&& forall|i: int| 0 <= i < s.len() ==> '0' <= #[trigger] s[i] <= '9'
            &&& n > 0 ==> s[0] != '0'
            &&& n == 0 ==> s.len() == 1
        }),
    decreases n,
{
    let s = text::decimal(n);
    if n < 10 {
        assert(s.drop_last() =~= Seq::<char>::empty());
        assert(value(s.drop_last()) == 0);
        assert(s.last() as int == 48 + n);
    } else {
        law_decimal_text(n / 10);
        let front = text::decimal(n / 10);
        assert(s.drop_last() =~= front);
        assert(s.last() as int == 48 + n % 10);
        assert(s[0] == front[0]);
        assert forall|i: int| 0 <= i < s.len() implies '0' <= #[trigger] s[i] <= '9' by {
            if i < front.len() {
                assert(s[i] == front[i]);
            }
        }
    }
}

/// Parameters that come from outside keep their numbers, and their milliseconds are a
/// thousand microseconds each.
pub proof fn law_parameters_from_outside(c: CrossbarConfig)
    ensures
        ({
            let p = ffi::config_of(c);
            &&& p.max_topics == c.max_topics
            &&& p.block_count == c.block_count
            &&& p.block_size == c.block_size
            &&& p.ring_depth == c.ring_depth
            &&& c.heartbeat_ms * 1000 <= u64::MAX ==> p.heartbeat_interval_us == c.heartbeat_ms
                * 1000
            &&& c.stale_timeout_ms * 1000 <= u64::MAX ==> p.stale_timeout_us
                == c.stale_timeout_ms * 1000
        }),
{
}

/// A thread that waits for a word to change spins a hundred times, yields ten times, and
/// then sleeps until time is up.
pub proof fn law_how_a_thread_waits(turn: u32, word: u32, expired: bool)
    ensures
        ({
            let a = notify::wait_action(turn, word, word, expired);
            &&& a is Spin <==> turn < 100
            &&& a is Yield <==> 100 <= turn < 110
            &&& a is TimedOut <==> turn >= 110 && expired
            &&& a is Park <==> turn >= 110 && !expired
        }),
        forall|other: u32|
            other != word ==> #[trigger] notify::wait_action(turn, other, word, expired)
                == WaitAction::Changed(other),
{
}

/// Segments can be made with the default parameters, of which a heartbeat every 100
/// milliseconds and a timeout of five seconds are part.
pub proof fn law_defaults_are_sound()
    ensures
        ({
            let c = config::default_config();
            &&& header::config_fault(c) is None
            &&& c.max_topics == 16 && c.block_count == 256 && c.block_size == 65536
                && c.ring_depth == 8
            &&& c.heartbeat_interval_us == 100_000 && c.stale_timeout_us == 5_000_000
        }),
        ({
            let c = pubsub::default_config();
            &&& pubsub::config_fault(c) is None
            &&& c.max_topics == 16 && c.sample_capacity == 65536 && c.ring_depth == 8
            &&& c.heartbeat_interval_us == 100_000 && c.stale_timeout_us == 5_000_000
        }),
        ({
            let c = pool_pubsub::default_config();
            &&& pool_pubsub::config_fault(c) is None
            &&& c.max_topics == 16 && c.block_count == 256 && c.block_size == 65536
                && c.ring_depth == 8
            &&& c.heartbeat_interval_us == 100_000 && c.stale_timeout_us == 5_000_000
        }),
        ({
            let c = pubsub_rpc::default_config();
            &&& pubsub_rpc::sound(c)
            &&& c.max_clients == 16 && c.block_count == 256 && c.block_size == 65536
                && c.ring_depth == 8
            &&& c.heartbeat_interval_us == 100_000 && c.stale_timeout_us == 5_000_000
        }),
        ({
            let c = region::default_config();
            &&& region::config_fault(c) is None
            &&& c.slot_count == 64 && c.block_count == 192 && c.block_size == 65536
            &&& c.heartbeat_interval_ms == 100 && c.stale_timeout_ms == 5000
        }),
{
    reveal_with_fuel(crate::protocol::layout::is_power_of_two, 5);
}

} // verus!
