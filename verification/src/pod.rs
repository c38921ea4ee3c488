//! Types that can lie in shared memory as plain bytes.

use crate::memory::{self, get_u16, get_u32, get_u64, push_u16, push_u32, push_u64};
use vstd::prelude::*;

verus! {

/// Plain data: a value is a fixed number of bytes, every pattern of that many
/// bytes is a value, and different values have different bytes.
pub trait Pod: Copy {
    /// Number of bytes of a value.
    spec fn size() -> nat;

    /// Alignment of the type.
    spec fn align() -> nat;

    /// The bytes of a value.
    spec fn encode(self) -> Seq<u8>;

    /// All values have the same number of bytes.
    proof fn encode_size(self)
        ensures
            self.encode().len() == Self::size(),
    ;

    /// The bytes determine the value.
    proof fn encode_injective(a: Self, b: Self)
        requires
            a.encode() == b.encode(),
        ensures
            a == b,
    ;

    /// Number of bytes of a value, computed.
    fn size_of() -> (r: usize)
        requires
            Self::size() <= usize::MAX,
        ensures
            r == Self::size(),
    ;

    /// Alignment of the type, computed.
    fn align_of() -> (r: usize)
        ensures
            r == Self::align(),
    ;

    /// The bytes of the value, computed.
    fn to_bytes(self) -> (r: Vec<u8>)
        ensures
            r@ == self.encode(),
            r@.len() == Self::size(),
    ;

    /// The value of some bytes.
    fn from_bytes(b: &[u8]) -> (r: Self)
        requires
            b@.len() == Self::size(),
        ensures
            r.encode() == b@,
    ;
}

/// A value survives being written out and read back.
pub proof fn law_pod_round_trip<T: Pod>(value: T, read: T)
    requires
        read.encode() == value.encode(),
    ensures
        read == value,
{
    T::encode_injective(read, value);
}

/// The bytes of some values, one after the other.
pub open spec fn flat<E: Pod>(s: Seq<E>) -> Seq<u8>
    decreases s.len(),
{
    if s.len() == 0 {
        Seq::empty()
    } else {
        flat(s.drop_last()) + s.last().encode()
    }
}

/// Values of one size take that size each.
pub proof fn lemma_flat_len<E: Pod>(s: Seq<E>)
    ensures
        flat(s).len() == s.len() * E::size(),
    decreases s.len(),
{
    if s.len() == 0 {
        assert(0 * E::size() == 0);
    } else {
        lemma_flat_len(s.drop_last());
        s.last().encode_size();
        assert(s.len() * E::size() == (s.len() - 1) * E::size() + E::size()) by (nonlinear_arith)
            requires
                s.len() >= 1,
        ;
    }
}

/// The values of an array are determined by their bytes.
pub proof fn lemma_flat_injective<E: Pod>(a: Seq<E>, b: Seq<E>)
    requires
        a.len() == b.len(),
        flat(a) == flat(b),
    ensures
        a == b,
    decreases a.len(),
{
    if a.len() > 0 {
        let n = a.len() as int;
        let fa = flat(a.drop_last());
        let fb = flat(b.drop_last());
        lemma_flat_len(a.drop_last());
        lemma_flat_len(b.drop_last());
        a.last().encode_size();
        b.last().encode_size();
        let whole = flat(a);
        assert(fa =~= whole.subrange(0, fa.len() as int));
        assert(fb =~= whole.subrange(0, fb.len() as int));
        assert(a.last().encode() =~= whole.subrange(fa.len() as int, whole.len() as int));
        assert(b.last().encode() =~= whole.subrange(fb.len() as int, whole.len() as int));
        lemma_flat_injective(a.drop_last(), b.drop_last());
        E::encode_injective(a.last(), b.last());
        assert(a =~= a.drop_last().push(a.last()));
        assert(b =~= b.drop_last().push(b.last()));
    } else {
        assert(a =~= b);
    }
}

/// The 8-bit pattern of a signed number.
pub open spec fn twos8(v: i8) -> u8 {
    if v >= 0 {
        v as u8
    } else {
        (v + 0x100) as u8
    }
}

/// The 16-bit pattern of a signed number.
pub open spec fn twos16(v: i16) -> u16 {
    if v >= 0 {
        v as u16
    } else {
        (v + 0x1_0000) as u16
    }
}

/// The 32-bit pattern of a signed number.
pub open spec fn twos32(v: i32) -> u32 {
    if v >= 0 {
        v as u32
    } else {
        (v + 0x1_0000_0000) as u32
    }
}

/// The 64-bit pattern of a signed number.
pub open spec fn twos64(v: i64) -> u64 {
    if v >= 0 {
        v as u64
    } else {
        (v + 0x1_0000_0000_0000_0000) as u64
    }
}

/// The little-endian bytes of a 128-bit value: the low half, then the high half.
pub open spec fn le128(v: u128) -> Seq<u8> {
    memory::le64((v % 0x1_0000_0000_0000_0000) as u64) + memory::le64(
        (v / 0x1_0000_0000_0000_0000) as u64,
    )
}

/// Equal encodings are encodings of equal 16-bit values.
pub proof fn lemma_le16_injective(a: u16, b: u16)
    requires
        memory::le16(a) == memory::le16(b),
    ensures
        a == b,
{
    assert(memory::u16_at(memory::le16(a), 0) == a);
    assert(memory::u16_at(memory::le16(b), 0) == b);
}

/// Equal encodings are encodings of equal 32-bit values.
pub proof fn lemma_le32_injective(a: u32, b: u32)
    requires
        memory::le32(a) == memory::le32(b),
    ensures
        a == b,
{
    memory::lemma_u32_of(memory::le32(a), 0, a);
    memory::lemma_u32_of(memory::le32(b), 0, b);
}

/// Equal encodings are encodings of equal 64-bit values.
pub proof fn lemma_le64_injective(a: u64, b: u64)
    requires
        memory::le64(a) == memory::le64(b),
    ensures
        a == b,
{
    memory::lemma_u64_of(memory::le64(a), 0, a);
    memory::lemma_u64_of(memory::le64(b), 0, b);
}

/// The eight bytes at `off` are the encoding of the value read there.
pub proof fn lemma_le64_of_u64_at(m: Seq<u8>, off: int)
    requires
        0 <= off,
        off + 8 <= m.len(),
    ensures
        memory::le64(memory::u64_at(m, off)) =~= memory::bytes_at(m, off, 8),
{
    memory::lemma_le32_of_u32_at(m, off);
    memory::lemma_le32_of_u32_at(m, off + 4);
    let v = memory::u64_at(m, off);
    assert(v % 4294967296 == memory::u32_at(m, off));
    assert(v / 4294967296 == memory::u32_at(m, off + 4));
    assert(memory::bytes_at(m, off, 8) =~= memory::bytes_at(m, off, 4) + memory::bytes_at(
        m,
        off + 4,
        4,
    ));
}

/// A 128-bit value falls apart into its halves.
proof fn lemma_halves(lo: u64, hi: u64, v: u128)
    requires
        v == lo + 0x1_0000_0000_0000_0000 * hi,
    ensures
        v % 0x1_0000_0000_0000_0000 == lo,
        v / 0x1_0000_0000_0000_0000 == hi,
{
}

/// Sixteen bytes are the encodings of the two halves read from them.
proof fn lemma_le64_halves(b: Seq<u8>, lo: u64, hi: u64)
    requires
        b.len() == 16,
        lo == memory::u64_at(b, 0),
        hi == memory::u64_at(b, 8),
    ensures
        memory::le64(lo) + memory::le64(hi) == b,
{
    lemma_le64_of_u64_at(b, 0);
    lemma_le64_of_u64_at(b, 8);
    assert(b =~= memory::bytes_at(b, 0, 8) + memory::bytes_at(b, 8, 8));
}

impl Pod for u8 {
    open spec fn size() -> nat {
        1
    }

    open spec fn align() -> nat {
        1
    }

    open spec fn encode(self) -> Seq<u8> {
        seq![self]
    }

    proof fn encode_size(self) {
    }

    proof fn encode_injective(a: Self, b: Self) {
        assert(seq![a][0] == seq![b][0]);
    }

    fn size_of() -> (r: usize) {
        1
    }

    fn align_of() -> (r: usize) {
        1
    }

    fn to_bytes(self) -> (r: Vec<u8>) {
        let mut r: Vec<u8> = Vec::new();
        r.push(self);
        assert(r@ =~= self.encode());
        r
    }

    fn from_bytes(b: &[u8]) -> (r: Self) {
        assert(b@ =~= seq![b@[0]]);
        b[0]
    }
}

impl Pod for i8 {
    open spec fn size() -> nat {
        1
    }

    open spec fn align() -> nat {
        1
    }

    open spec fn encode(self) -> Seq<u8> {
        seq![twos8(self)]
    }

    proof fn encode_size(self) {
    }

    proof fn encode_injective(a: Self, b: Self) {
        assert(seq![twos8(a)][0] == seq![twos8(b)][0]);
    }

    fn size_of() -> (r: usize) {
        1
    }

    fn align_of() -> (r: usize) {
        1
    }

    fn to_bytes(self) -> (r: Vec<u8>) {
        let mut r: Vec<u8> = Vec::new();
        let v: u8 = if self >= 0 {
            self as u8
        } else {
            (self as i16 + 0x100) as u8
        };
        r.push(v);
        assert(r@ =~= self.encode());
        r
    }

    fn from_bytes(b: &[u8]) -> (r: Self) {
        let v: u8 = b[0];
        assert(b@ =~= seq![v]);
        if v < 0x80 {
            v as i8
        } else {
            (v as i16 - 0x100) as i8
        }
    }
}

impl Pod for u16 {
    open spec fn size() -> nat {
        2
    }

    open spec fn align() -> nat {
        2
    }

    open spec fn encode(self) -> Seq<u8> {
        memory::le16(self)
    }

    proof fn encode_size(self) {
    }

    proof fn encode_injective(a: Self, b: Self) {
        lemma_le16_injective(a, b);
    }

    fn size_of() -> (r: usize) {
        2
    }

    fn align_of() -> (r: usize) {
        2
    }

    fn to_bytes(self) -> (r: Vec<u8>) {
        let mut r: Vec<u8> = Vec::new();
        push_u16(&mut r, self);
        assert(r@ =~= self.encode());
        r
    }

    fn from_bytes(b: &[u8]) -> (r: Self) {
        let v: u16 = get_u16(b, 0);
        assert(memory::le16(v) =~= b@);
        v
    }
}

impl Pod for i16 {
    open spec fn size() -> nat {
        2
    }

    open spec fn align() -> nat {
        2
    }

    open spec fn encode(self) -> Seq<u8> {
        memory::le16(twos16(self))
    }

    proof fn encode_size(self) {
    }

    proof fn encode_injective(a: Self, b: Self) {
        lemma_le16_injective(twos16(a), twos16(b));
    }

    fn size_of() -> (r: usize) {
        2
    }

    fn align_of() -> (r: usize) {
        2
    }

    fn to_bytes(self) -> (r: Vec<u8>) {
        let v: u16 = if self >= 0 {
            self as u16
        } else {
            (self as i32 + 0x1_0000) as u16
        };
        let mut r: Vec<u8> = Vec::new();
        push_u16(&mut r, v);
        assert(r@ =~= self.encode());
        r
    }

    fn from_bytes(b: &[u8]) -> (r: Self) {
        let v: u16 = get_u16(b, 0);
        assert(memory::le16(v) =~= b@);
        if v < 0x8000 {
            v as i16
        } else {
            (v as i32 - 0x1_0000) as i16
        }
    }
}

impl Pod for u32 {
    open spec fn size() -> nat {
        4
    }

    open spec fn align() -> nat {
        4
    }

    open spec fn encode(self) -> Seq<u8> {
        memory::le32(self)
    }

    proof fn encode_size(self) {
    }

    proof fn encode_injective(a: Self, b: Self) {
        lemma_le32_injective(a, b);
    }

    fn size_of() -> (r: usize) {
        4
    }

    fn align_of() -> (r: usize) {
        4
    }

    fn to_bytes(self) -> (r: Vec<u8>) {
        let mut r: Vec<u8> = Vec::new();
        push_u32(&mut r, self);
        assert(r@ =~= self.encode());
        r
    }

    fn from_bytes(b: &[u8]) -> (r: Self) {
        let v: u32 = get_u32(b, 0);
        proof {
            memory::lemma_le32_of_u32_at(b@, 0);
            assert(memory::bytes_at(b@, 0, 4) =~= b@);
        }
        v
    }
}

impl Pod for i32 {
    open spec fn size() -> nat {
        4
    }

    open spec fn align() -> nat {
        4
    }

    open spec fn encode(self) -> Seq<u8> {
        memory::le32(twos32(self))
    }

    proof fn encode_size(self) {
    }

    proof fn encode_injective(a: Self, b: Self) {
        lemma_le32_injective(twos32(a), twos32(b));
    }

    fn size_of() -> (r: usize) {
        4
    }

    fn align_of() -> (r: usize) {
        4
    }

    fn to_bytes(self) -> (r: Vec<u8>) {
        let v: u32 = if self >= 0 {
            self as u32
        } else {
            (self as i64 + 0x1_0000_0000) as u32
        };
        let mut r: Vec<u8> = Vec::new();
        push_u32(&mut r, v);
        assert(r@ =~= self.encode());
        r
    }

    fn from_bytes(b: &[u8]) -> (r: Self) {
        let v: u32 = get_u32(b, 0);
        proof {
            memory::lemma_le32_of_u32_at(b@, 0);
            assert(memory::bytes_at(b@, 0, 4) =~= b@);
        }
        if v < 0x8000_0000 {
            v as i32
        } else {
            (v as i64 - 0x1_0000_0000) as i32
        }
    }
}

impl Pod for u64 {
    open spec fn size() -> nat {
        8
    }

    open spec fn align() -> nat {
        8
    }

    open spec fn encode(self) -> Seq<u8> {
        memory::le64(self)
    }

    proof fn encode_size(self) {
    }

    proof fn encode_injective(a: Self, b: Self) {
        lemma_le64_injective(a, b);
    }

    fn size_of() -> (r: usize) {
        8
    }

    fn align_of() -> (r: usize) {
        8
    }

    fn to_bytes(self) -> (r: Vec<u8>) {
        let mut r: Vec<u8> = Vec::new();
        push_u64(&mut r, self);
        assert(r@ =~= self.encode());
        r
    }

    fn from_bytes(b: &[u8]) -> (r: Self) {
        let v: u64 = get_u64(b, 0);
        proof {
            lemma_le64_of_u64_at(b@, 0);
            assert(memory::bytes_at(b@, 0, 8) =~= b@);
        }
        v
    }
}

impl Pod for i64 {
    open spec fn size() -> nat {
        8
    }

    open spec fn align() -> nat {
        8
    }

    open spec fn encode(self) -> Seq<u8> {
        memory::le64(twos64(self))
    }

    proof fn encode_size(self) {
    }

    proof fn encode_injective(a: Self, b: Self) {
        lemma_le64_injective(twos64(a), twos64(b));
    }

    fn size_of() -> (r: usize) {
        8
    }

    fn align_of() -> (r: usize) {
        8
    }

    fn to_bytes(self) -> (r: Vec<u8>) {
        let v: u64 = if self >= 0 {
            self as u64
        } else {
            (self as i128 + 0x1_0000_0000_0000_0000) as u64
        };
        let mut r: Vec<u8> = Vec::new();
        push_u64(&mut r, v);
        assert(r@ =~= self.encode());
        r
    }

    fn from_bytes(b: &[u8]) -> (r: Self) {
        let v: u64 = get_u64(b, 0);
        proof {
            lemma_le64_of_u64_at(b@, 0);
            assert(memory::bytes_at(b@, 0, 8) =~= b@);
        }
        if v < 0x8000_0000_0000_0000 {
            v as i64
        } else {
            (v as i128 - 0x1_0000_0000_0000_0000) as i64
        }
    }
}

impl Pod for u128 {
    open spec fn size() -> nat {
        16
    }

    open spec fn align() -> nat {
        16
    }

    open spec fn encode(self) -> Seq<u8> {
        le128(self)
    }

    proof fn encode_size(self) {
    }

    proof fn encode_injective(a: Self, b: Self) {
        let (al, ah) = ((a % 0x1_0000_0000_0000_0000) as u64, (a / 0x1_0000_0000_0000_0000) as u64);
        let (bl, bh) = ((b % 0x1_0000_0000_0000_0000) as u64, (b / 0x1_0000_0000_0000_0000) as u64);
        assert(memory::le64(al) =~= le128(a).subrange(0, 8));
        assert(memory::le64(bl) =~= le128(b).subrange(0, 8));
        assert(memory::le64(ah) =~= le128(a).subrange(8, 16));
        assert(memory::le64(bh) =~= le128(b).subrange(8, 16));
        lemma_le64_injective(al, bl);
        lemma_le64_injective(ah, bh);
    }

    fn size_of() -> (r: usize) {
        16
    }

    fn align_of() -> (r: usize) {
        16
    }

    fn to_bytes(self) -> (r: Vec<u8>) {
        let mut r: Vec<u8> = Vec::new();
        push_u64(&mut r, (self % 0x1_0000_0000_0000_0000) as u64);
        push_u64(&mut r, (self / 0x1_0000_0000_0000_0000) as u64);
        assert(r@ =~= self.encode());
        r
    }

    fn from_bytes(b: &[u8]) -> (r: Self) {
        let lo: u64 = get_u64(b, 0);
        let hi: u64 = get_u64(b, 8);
        let v: u128 = lo as u128 + 0x1_0000_0000_0000_0000 * (hi as u128);
        proof {
            lemma_halves(lo, hi, v);
            lemma_le64_halves(b@, lo, hi);
        }
        v
    }
}

/// The 128-bit pattern of a signed number.
pub open spec fn twos128(v: i128) -> u128 {
    if v >= 0 {
        v as u128
    } else {
        (v + 0x1_0000_0000_0000_0000_0000_0000_0000_0000int) as u128
    }
}

impl Pod for i128 {
    open spec fn size() -> nat {
        16
    }

    open spec fn align() -> nat {
        16
    }

    open spec fn encode(self) -> Seq<u8> {
        le128(twos128(self))
    }

    proof fn encode_size(self) {
    }

    proof fn encode_injective(a: Self, b: Self) {
        <u128 as Pod>::encode_injective(twos128(a), twos128(b));
    }

    fn size_of() -> (r: usize) {
        16
    }

    fn align_of() -> (r: usize) {
        16
    }

    fn to_bytes(self) -> (r: Vec<u8>) {
        let v: u128 = if self >= 0 {
            self as u128
        } else {
            u128::MAX - (-(self + 1)) as u128
        };
        v.to_bytes()
    }

    fn from_bytes(b: &[u8]) -> (r: Self) {
        let v: u128 = <u128 as Pod>::from_bytes(b);
        if v < 0x8000_0000_0000_0000_0000_0000_0000_0000 {
            v as i128
        } else {
            -((u128::MAX - v) as i128) - 1
        }
    }
}

impl Pod for usize {
    open spec fn size() -> nat {
        if usize::BITS == 64 {
            8
        } else {
            4
        }
    }

    open spec fn align() -> nat {
        Self::size()
    }

    open spec fn encode(self) -> Seq<u8> {
        if usize::BITS == 64 {
            memory::le64(self as u64)
        } else {
            memory::le32(self as u32)
        }
    }

    proof fn encode_size(self) {
    }

    proof fn encode_injective(a: Self, b: Self) {
        if usize::BITS == 64 {
            lemma_le64_injective(a as u64, b as u64);
        } else {
            lemma_le32_injective(a as u32, b as u32);
        }
    }

    fn size_of() -> (r: usize) {
        if usize::BITS == 64 {
            8
        } else {
            4
        }
    }

    fn align_of() -> (r: usize) {
        Self::size_of()
    }

    fn to_bytes(self) -> (r: Vec<u8>) {
        if usize::BITS == 64 {
            (self as u64).to_bytes()
        } else {
            (self as u32).to_bytes()
        }
    }

    fn from_bytes(b: &[u8]) -> (r: Self) {
        if usize::BITS == 64 {
            <u64 as Pod>::from_bytes(b) as usize
        } else {
            <u32 as Pod>::from_bytes(b) as usize
        }
    }
}

impl Pod for isize {
    open spec fn size() -> nat {
        if isize::BITS == 64 {
            8
        } else {
            4
        }
    }

    open spec fn align() -> nat {
        Self::size()
    }

    open spec fn encode(self) -> Seq<u8> {
        if isize::BITS == 64 {
            memory::le64(twos64(self as i64))
        } else {
            memory::le32(twos32(self as i32))
        }
    }

    proof fn encode_size(self) {
    }

    proof fn encode_injective(a: Self, b: Self) {
        if isize::BITS == 64 {
            lemma_le64_injective(twos64(a as i64), twos64(b as i64));
        } else {
            lemma_le32_injective(twos32(a as i32), twos32(b as i32));
        }
    }

    fn size_of() -> (r: usize) {
        if isize::BITS == 64 {
            8
        } else {
            4
        }
    }

    fn align_of() -> (r: usize) {
        Self::size_of()
    }

    fn to_bytes(self) -> (r: Vec<u8>) {
        if isize::BITS == 64 {
            (self as i64).to_bytes()
        } else {
            (self as i32).to_bytes()
        }
    }

    fn from_bytes(b: &[u8]) -> (r: Self) {
        if isize::BITS == 64 {
            <i64 as Pod>::from_bytes(b) as isize
        } else {
            <i32 as Pod>::from_bytes(b) as isize
        }
    }
}

/// `core::array::from_fn` makes an array of what a function gives for each
/// index.
pub assume_specification<T, const N: usize, F>[ core::array::from_fn::<T, N, F> ](f: F) -> (r: [T;
    N]) where F: FnMut(usize) -> T
    requires
        forall|i: usize| i < N ==> call_requires(f, (i,)),
    ensures
        forall|i: usize| i < N ==> call_ensures(f, (i,), #[trigger] r@[i as int]),
;

impl<T: Pod, const N: usize> Pod for [T; N] {
    open spec fn size() -> nat {
        N as nat * T::size()
    }

    open spec fn align() -> nat {
        T::align()
    }

    open spec fn encode(self) -> Seq<u8> {
        flat(self@)
    }

    proof fn encode_size(self) {
        lemma_flat_len(self@);
    }

    proof fn encode_injective(a: Self, b: Self) {
        lemma_flat_injective(a@, b@);
        assert(a =~= b);
    }

    fn size_of() -> (r: usize) {
        if N == 0 {
            return 0;
        }
        proof {
            lemma_part(N as nat, T::size());
        }
        N * T::size_of()
    }

    fn align_of() -> (r: usize) {
        T::align_of()
    }

    fn to_bytes(self) -> (r: Vec<u8>) {
        let mut r: Vec<u8> = Vec::new();
        let mut i: usize = 0;
        assert(flat(self@.subrange(0, 0)) =~= Seq::<u8>::empty());
        while i < N
            invariant
                i <= N,
                self@.len() == N,
                r@ == flat(self@.subrange(0, i as int)),
            decreases N - i,
        {
            let mut e: Vec<u8> = self[i].to_bytes();
            proof {
                assert(self@.subrange(0, i + 1).drop_last() =~= self@.subrange(0, i as int));
            }
            r.append(&mut e);
            i = i + 1;
        }
        proof {
            assert(self@.subrange(0, N as int) =~= self@);
            lemma_flat_len(self@);
        }
        r
    }

    fn from_bytes(b: &[u8]) -> (r: Self) {
        assert(b.len() <= usize::MAX);
        let s: usize = if N == 0 {
            0
        } else {
            proof {
                lemma_part(N as nat, T::size());
            }
            T::size_of()
        };
        let f = |i: usize| -> (e: T)
            requires
                i < N,
            ensures
                e.encode() == b@.subrange(i * T::size(), (i + 1) * T::size()),
        {
            proof {
                crate::protocol::pool::lemma_mul_bounds(i as int, N as int, s as int);
                assert((i + 1) * s == i * s + s) by (nonlinear_arith);
                assert(i * s + s <= b.len());
            }
            let part: Vec<u8> = memory::copy_range(b, i * s, i * s + s);
            T::from_bytes(part.as_slice())
        };
        let r: [T; N] = core::array::from_fn(f);
        proof {
            lemma_parts::<T>(r@, b@);
        }
        r
    }
}

/// An array with elements is at least as large as one of them.
proof fn lemma_part(n: nat, s: nat)
    requires
        n >= 1,
    ensures
        s <= n * s,
{
    assert(s <= n * s) by (nonlinear_arith)
        requires
            n >= 1,
    ;
}

/// Values that are read from the parts of some bytes have these bytes.
proof fn lemma_parts<T: Pod>(values: Seq<T>, b: Seq<u8>)
    requires
        b.len() == values.len() * T::size(),
        forall|i: int|
            0 <= i < values.len() ==> (#[trigger] values[i]).encode() == b.subrange(
                i * T::size(),
                (i + 1) * T::size(),
            ),
    ensures
        flat(values) == b,
    decreases values.len(),
{
    let n = values.len();
    let s = T::size();
    if n == 0 {
        assert(0 * s == 0);
        assert(b =~= Seq::<u8>::empty());
    } else {
        let rest = values.drop_last();
        let cut = (n - 1) * s;
        assert(n * s == cut + s) by (nonlinear_arith)
            requires
                n >= 1,
                cut == (n - 1) * s,
        ;
        assert(0 <= cut) by (nonlinear_arith)
            requires
                n >= 1,
                cut == (n - 1) * s,
        ;
        let front = b.subrange(0, cut);
        assert forall|i: int| 0 <= i < rest.len() implies (#[trigger] rest[i]).encode()
            == front.subrange(i * s, (i + 1) * s) by {
            assert(values[i] == rest[i]);
            crate::protocol::pool::lemma_mul_bounds(i, n - 1, s as int);
            assert((i + 1) * s == i * s + s) by (nonlinear_arith);
            assert(front.subrange(i * s, (i + 1) * s) =~= b.subrange(i * s, (i + 1) * s));
        }
        lemma_parts::<T>(rest, front);
        assert(values[n - 1].encode() == b.subrange(cut, cut + s));
        assert(b =~= front + b.subrange(cut, cut + s));
    }
}

} // verus!
