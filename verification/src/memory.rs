//! Byte images of shared memory, and the handles that read and write them.
//!
//! A segment is a sequence of bytes. Every number in it is little-endian, so
//! that processes agree on the layout and a 64-bit counter's low half can be
//! waited on as a 32-bit word.

use vstd::prelude::*;

verus! {

/// `m` with the bytes `b` written at `off`.
pub open spec fn put(m: Seq<u8>, off: int, b: Seq<u8>) -> Seq<u8> {
    Seq::new(m.len(), |i: int| if off <= i < off + b.len() { b[i - off] } else { m[i] })
}

/// The little-endian bytes of a 16-bit value.
pub open spec fn le16(v: u16) -> Seq<u8> {
    seq![(v % 256) as u8, (v / 256) as u8]
}

/// The little-endian bytes of a 32-bit value.
pub open spec fn le32(v: u32) -> Seq<u8> {
    seq![
        (v % 256) as u8,
        ((v / 256) % 256) as u8,
        ((v / 65536) % 256) as u8,
        (v / 16777216) as u8,
    ]
}

/// The little-endian bytes of a 64-bit value: the low word, then the high word.
pub open spec fn le64(v: u64) -> Seq<u8> {
    le32((v % 4294967296) as u32) + le32((v / 4294967296) as u32)
}

/// The 16-bit value stored at `off`.
pub open spec fn u16_at(m: Seq<u8>, off: int) -> u16 {
    (m[off] + 256 * m[off + 1]) as u16
}

/// The 32-bit value stored at `off`.
pub open spec fn u32_at(m: Seq<u8>, off: int) -> u32 {
    (m[off] + 256 * m[off + 1] + 65536 * m[off + 2] + 16777216 * m[off + 3]) as u32
}

/// The 64-bit value stored at `off`.
pub open spec fn u64_at(m: Seq<u8>, off: int) -> u64 {
    (u32_at(m, off) + 4294967296 * u32_at(m, off + 4)) as u64
}

/// The `len` bytes stored at `off`.
pub open spec fn bytes_at(m: Seq<u8>, off: int, len: int) -> Seq<u8> {
    m.subrange(off, off + len)
}

/// `m` with a 32-bit value written at `off`.
pub open spec fn put32(m: Seq<u8>, off: int, v: u32) -> Seq<u8> {
    put(m, off, le32(v))
}

/// `m` with a 64-bit value written at `off`.
pub open spec fn put64(m: Seq<u8>, off: int, v: u64) -> Seq<u8> {
    put(m, off, le64(v))
}

pub broadcast proof fn lemma_put_len(m: Seq<u8>, off: int, b: Seq<u8>)
    ensures
        (#[trigger] put(m, off, b)).len() == m.len(),
{
}

pub broadcast proof fn lemma_le16_len(v: u16)
    ensures
        (#[trigger] le16(v)).len() == 2,
{
}

pub broadcast proof fn lemma_le32_len(v: u32)
    ensures
        (#[trigger] le32(v)).len() == 4,
{
}

pub broadcast proof fn lemma_le64_len(v: u64)
    ensures
        (#[trigger] le64(v)).len() == 8,
{
}

/// Four bytes that are `le32(v)` read as `v`.
pub proof fn lemma_u32_of(m: Seq<u8>, off: int, v: u32)
    requires
        m[off] == le32(v)[0],
        m[off + 1] == le32(v)[1],
        m[off + 2] == le32(v)[2],
        m[off + 3] == le32(v)[3],
    ensures
        u32_at(m, off) == v,
{
}

/// The four bytes at `off` are the encoding of the value read there.
#[verifier::rlimit(40)]
pub proof fn lemma_le32_of_u32_at(m: Seq<u8>, off: int)
    requires
        0 <= off,
        off + 4 <= m.len(),
    ensures
        le32(u32_at(m, off)) =~= bytes_at(m, off, 4),
{
    let a: int = m[off] as int;
    let b: int = m[off + 1] as int;
    let c: int = m[off + 2] as int;
    let d: int = m[off + 3] as int;
    let v: int = a + 256 * b + 65536 * c + 16777216 * d;
    assert(v % 256 == a);
    assert((v / 256) % 256 == b);
    assert((v / 65536) % 256 == c);
    assert(v / 16777216 == d);
}

/// A 16-bit value reads back as it was written.
pub broadcast proof fn lemma_u16_put_same(m: Seq<u8>, off: int, v: u16)
    requires
        0 <= off,
        off + 2 <= m.len(),
    ensures
        u16_at(#[trigger] put(m, off, le16(v)), off) == v,
{
}

/// A 32-bit value reads back as it was written.
pub broadcast proof fn lemma_u32_put_same(m: Seq<u8>, off: int, v: u32)
    requires
        0 <= off,
        off + 4 <= m.len(),
    ensures
        u32_at(#[trigger] put(m, off, le32(v)), off) == v,
{
    lemma_u32_of(put(m, off, le32(v)), off, v);
}

/// A 64-bit value reads back as it was written.
pub broadcast proof fn lemma_u64_put_same(m: Seq<u8>, off: int, v: u64)
    requires
        0 <= off,
        off + 8 <= m.len(),
    ensures
        u64_at(#[trigger] put(m, off, le64(v)), off) == v,
{
    lemma_u64_of(put(m, off, le64(v)), off, v);
}

/// Eight bytes that are `le64(v)` read as `v`.
pub proof fn lemma_u64_of(m: Seq<u8>, off: int, v: u64)
    requires
        forall|i: int| 0 <= i < 8 ==> m[off + i] == #[trigger] le64(v)[i],
    ensures
        u64_at(m, off) == v,
{
    let lo = (v % 4294967296) as u32;
    let hi = (v / 4294967296) as u32;
    assert(le64(v) =~= le32(lo) + le32(hi));
    assert(m[off + 0] == le64(v)[0] && m[off + 1] == le64(v)[1] && m[off + 2] == le64(v)[2]
        && m[off + 3] == le64(v)[3]);
    assert(m[off + 4] == le64(v)[4] && m[off + 5] == le64(v)[5] && m[off + 6] == le64(v)[6]
        && m[off + 7] == le64(v)[7]);
    lemma_u32_of(m, off, lo);
    lemma_u32_of(m, off + 4, hi);
}

/// Writing elsewhere leaves a 16-bit value alone.
pub broadcast proof fn lemma_u16_put_other(m: Seq<u8>, off: int, b: Seq<u8>, at: int)
    requires
        0 <= at,
        at + 2 <= m.len(),
        at + 2 <= off || off + b.len() <= at,
    ensures
        #[trigger] u16_at(put(m, off, b), at) == u16_at(m, at),
{
}

/// Writing elsewhere leaves a 32-bit value alone.
pub broadcast proof fn lemma_u32_put_other(m: Seq<u8>, off: int, b: Seq<u8>, at: int)
    requires
        0 <= at,
        at + 4 <= m.len(),
        at + 4 <= off || off + b.len() <= at,
    ensures
        #[trigger] u32_at(put(m, off, b), at) == u32_at(m, at),
{
}

/// Writing elsewhere leaves a 64-bit value alone.
pub broadcast proof fn lemma_u64_put_other(m: Seq<u8>, off: int, b: Seq<u8>, at: int)
    requires
        0 <= at,
        at + 8 <= m.len(),
        at + 8 <= off || off + b.len() <= at,
    ensures
        #[trigger] u64_at(put(m, off, b), at) == u64_at(m, at),
{
}

/// Bytes read back as they were written.
pub broadcast proof fn lemma_bytes_put_same(m: Seq<u8>, off: int, b: Seq<u8>, len: int)
    requires
        0 <= off,
        0 <= len <= b.len(),
        off + b.len() <= m.len(),
    ensures
        #[trigger] bytes_at(put(m, off, b), off, len) == b.subrange(0, len),
{
    assert(bytes_at(put(m, off, b), off, len) =~= b.subrange(0, len));
}

/// Writing elsewhere leaves a stretch of bytes alone.
pub broadcast proof fn lemma_bytes_put_other(m: Seq<u8>, off: int, b: Seq<u8>, at: int, len: int)
    requires
        0 <= at,
        0 <= len,
        at + len <= m.len(),
        at + len <= off || off + b.len() <= at,
    ensures
        #[trigger] bytes_at(put(m, off, b), at, len) == bytes_at(m, at, len),
{
    assert(bytes_at(put(m, off, b), at, len) =~= bytes_at(m, at, len));
}

/// What reads see after writes.
pub broadcast group group_memory {
    lemma_put_len,
    lemma_le16_len,
    lemma_le32_len,
    lemma_le64_len,
    lemma_u16_put_same,
    lemma_u32_put_same,
    lemma_u64_put_same,
    lemma_u16_put_other,
    lemma_u32_put_other,
    lemma_u64_put_other,
    lemma_bytes_put_same,
    lemma_bytes_put_other,
}

/// The 16-bit value at `off` of a byte slice.
pub fn get_u16(b: &[u8], off: usize) -> (r: u16)
    requires
        off + 2 <= b@.len(),
    ensures
        r == u16_at(b@, off as int),
{
    b[off] as u16 + 256 * (b[off + 1] as u16)
}

/// The 32-bit value at `off` of a byte slice.
pub fn get_u32(b: &[u8], off: usize) -> (r: u32)
    requires
        off + 4 <= b@.len(),
    ensures
        r == u32_at(b@, off as int),
{
    b[off] as u32 + 256 * (b[off + 1] as u32) + 65536 * (b[off + 2] as u32) + 16777216 * (b[off
        + 3] as u32)
}

/// The 64-bit value at `off` of a byte slice.
pub fn get_u64(b: &[u8], off: usize) -> (r: u64)
    requires
        off + 8 <= b@.len(),
    ensures
        r == u64_at(b@, off as int),
{
    assert(off + 8 <= b.len());
    get_u32(b, off) as u64 + 4294967296 * (get_u32(b, off + 4) as u64)
}

/// Appends the little-endian bytes of a 16-bit value.
pub fn push_u16(out: &mut Vec<u8>, v: u16)
    ensures
        final(out)@ == old(out)@ + le16(v),
{
    out.push((v % 256) as u8);
    out.push((v / 256) as u8);
    assert(out@ =~= old(out)@ + le16(v));
}

/// Appends the little-endian bytes of a 32-bit value.
pub fn push_u32(out: &mut Vec<u8>, v: u32)
    ensures
        final(out)@ == old(out)@ + le32(v),
{
    out.push((v % 256) as u8);
    out.push(((v / 256) % 256) as u8);
    out.push(((v / 65536) % 256) as u8);
    out.push((v / 16777216) as u8);
    assert(out@ =~= old(out)@ + le32(v));
}

/// Appends the little-endian bytes of a 64-bit value.
pub fn push_u64(out: &mut Vec<u8>, v: u64)
    ensures
        final(out)@ == old(out)@ + le64(v),
{
    push_u32(out, (v % 4294967296) as u32);
    push_u32(out, (v / 4294967296) as u32);
    assert(out@ =~= old(out)@ + le64(v));
}

/// Overwrites bytes of a vector in place.
pub fn put_bytes(out: &mut Vec<u8>, off: usize, data: &[u8])
    requires
        off + data@.len() <= old(out)@.len(),
    ensures
        final(out)@ == put(old(out)@, off as int, data@),
{
    let ghost m = out@;
    let mut i: usize = 0;
    let n: usize = data.len();
    while i < n
        invariant
            n == data@.len(),
            i <= n,
            off + n <= out@.len(),
            out@ =~= put(m, off as int, data@.subrange(0, i as int)),
        decreases n - i,
    {
        assert(off + n <= out.len());
        out.set(off + i, data[i]);
        i = i + 1;
    }
    assert(data@.subrange(0, n as int) =~= data@);
}

/// Copies the bytes `[from, to)` of a slice into a vector of their own.
pub fn copy_range(b: &[u8], from: usize, to: usize) -> (r: Vec<u8>)
    requires
        from <= to <= b@.len(),
    ensures
        r@ == b@.subrange(from as int, to as int),
{
    let mut r: Vec<u8> = Vec::new();
    let mut i: usize = from;
    while i < to
        invariant
            from <= i <= to <= b@.len(),
            r@ =~= b@.subrange(from as int, i as int),
        decreases to - i,
    {
        r.push(b[i]);
        i = i + 1;
    }
    r
}

/// Whether two byte slices hold the same bytes.
pub fn same_bytes(a: &[u8], b: &[u8]) -> (r: bool)
    ensures
        r == (a@ == b@),
{
    if a.len() != b.len() {
        return false;
    }
    let mut i: usize = 0;
    let n: usize = a.len();
    while i < n
        invariant
            n == a@.len() == b@.len(),
            i <= n,
            forall|j: int| 0 <= j < i ==> a@[j] == b@[j],
        decreases n - i,
    {
        if a[i] != b[i] {
            return false;
        }
        i = i + 1;
    }
    assert(a@ =~= b@);
    true
}

/// The sum of two 32-bit values, wrapped around.
pub open spec fn wrapping_sum_u32(a: u32, b: u32) -> u32 {
    if a + b >= 0x1_0000_0000 { (a + b - 0x1_0000_0000) as u32 } else { (a + b) as u32 }
}

/// The difference of two 32-bit values, wrapped around.
pub open spec fn wrapping_difference_u32(a: u32, b: u32) -> u32 {
    if a < b { (a - b + 0x1_0000_0000) as u32 } else { (a - b) as u32 }
}

/// The sum of two 64-bit values, wrapped around.
pub open spec fn wrapping_sum_u64(a: u64, b: u64) -> u64 {
    if a + b >= 0x1_0000_0000_0000_0000 {
        (a + b - 0x1_0000_0000_0000_0000) as u64
    } else {
        (a + b) as u64
    }
}

/// The larger of two 64-bit values.
pub open spec fn larger_u64(a: u64, b: u64) -> u64 {
    if a < b { b } else { a }
}

/// The contents of a segment, as a mathematical sequence.
pub type Image = Seq<u8>;

/// A bound on how often a handle is held up.
pub type Delays = nat;

/// What a handle did to a segment, or saw of it, in one go: nobody sees a part of
/// it, and it sees no part of what others do (but for bytes, which may come and
/// go one by one).
#[allow(inconsistent_fields)]
pub enum Access {
    /// It looked at a 32-bit value; `found` is what it was told.
    Look32 { off: int, found: u32 },
    /// It looked at a 64-bit value; `found` is what it was told.
    Look64 { off: int, found: u64 },
    /// It copied bytes; `found` is what it was told.
    Copied { off: int, found: Seq<u8> },
    /// It wrote bytes.
    Bytes { off: int, data: Seq<u8> },
    /// It wrote a 32-bit value.
    Word32 { off: int, v: u32 },
    /// It wrote a 64-bit value.
    Word64 { off: int, v: u64 },
    /// It stored `new` if the value was `current`; `found` is what it was told.
    Exchange32 { off: int, current: u32, new: u32, found: Result<u32, u32> },
    /// It stored `new` if the value was `current`; `found` is what it was told.
    Exchange64 { off: int, current: u64, new: u64, found: Result<u64, u64> },
    /// It added to a 32-bit value; `was` is what it was told of it.
    Add32 { off: int, v: u32, was: u32 },
    /// It subtracted from a 32-bit value; `was` is what it was told of it.
    Subtract32 { off: int, v: u32, was: u32 },
    /// It added to a 64-bit value; `was` is what it was told of it.
    Add64 { off: int, v: u64, was: u64 },
    /// It raised a 64-bit value; `was` is what it was told of it.
    Raise64 { off: int, v: u64, was: u64 },
}

/// What a handle did to a segment and saw of it, in order.
pub type Accesses = Seq<Access>;

/// A segment after an access.
pub open spec fn after_access(m: Seq<u8>, s: Access) -> Seq<u8> {
    match s {
        Access::Look32 { .. } | Access::Look64 { .. } | Access::Copied { .. } => m,
        Access::Bytes { off, data } => put(m, off, data),
        Access::Word32 { off, v } => put32(m, off, v),
        Access::Word64 { off, v } => put64(m, off, v),
        Access::Exchange32 { off, new, found, .. } => if found is Ok { put32(m, off, new) } else { m },
        Access::Exchange64 { off, new, found, .. } => if found is Ok { put64(m, off, new) } else { m },
        Access::Add32 { off, v, .. } => put32(m, off, wrapping_sum_u32(u32_at(m, off), v)),
        Access::Subtract32 { off, v, .. } => put32(m, off, wrapping_difference_u32(u32_at(m, off), v)),
        Access::Add64 { off, v, .. } => put64(m, off, wrapping_sum_u64(u64_at(m, off), v)),
        Access::Raise64 { off, v, .. } => put64(m, off, larger_u64(u64_at(m, off), v)),
    }
}

/// What a handle was told of a word is what the segment held: the segment is `m`
/// at the moment of the access.
pub open spec fn told_of(m: Seq<u8>, s: Access) -> bool {
    match s {
        Access::Look32 { off, found } => found == u32_at(m, off),
        Access::Look64 { off, found } => found == u64_at(m, off),
        Access::Exchange32 { off, current, found, .. } => {
            &&& found is Ok <==> u32_at(m, off) == current
            &&& found matches Err(v) ==> v == u32_at(m, off)
        },
        Access::Exchange64 { off, current, found, .. } => {
            &&& found is Ok <==> u64_at(m, off) == current
            &&& found matches Err(v) ==> v == u64_at(m, off)
        },
        Access::Add32 { off, was, .. } => was == u32_at(m, off),
        Access::Subtract32 { off, was, .. } => was == u32_at(m, off),
        Access::Add64 { off, was, .. } => was == u64_at(m, off),
        Access::Raise64 { off, was, .. } => was == u64_at(m, off),
        _ => true,
    }
}

/// A count goes up by one.
pub open spec fn one_more(off: int, was: u32) -> Access {
    Access::Add32 { off, v: 1, was }
}

/// A count goes down by one.
pub open spec fn one_less(off: int, was: u32) -> Access {
    Access::Subtract32 { off, v: 1, was }
}

/// A value is raised to `v`, if it is smaller.
pub open spec fn raised(off: int, v: u64, was: u64) -> Access {
    Access::Raise64 { off, v, was }
}

/// A handle on a segment of memory that other parties may share.
///
/// `image` is what the handle shows of the segment. A handle is `exclusive`
/// while nobody else writes to the segment; then every read and write is
/// accounted for in `image`. On a handle that is not exclusive a read may give
/// any value, and what holds of the operations of this crate is what they say
/// without assuming `exclusive`: no value found in the segment can make them
/// reach outside of it.
///
/// `contention` bounds how many more times the handle loses an exchange to
/// another party. It is what makes the retry loops end.
///
/// `accesses` records what was done to the segment through this handle, and what
/// was seen of it by `look_u32`, `look_u64` and `copy`. These read as `load_u32`,
/// `load_u64` and `read` do; a reader that looks a second time after it has read
/// uses them, so that its contract can say in which order it looked. On a handle
/// that is not exclusive the record is what an operation is known by: the laws on
/// several parties are about single accesses.
///
/// Nothing calls these four when a program runs. A type for mapped memory, of
/// which no program can say what others will write, has any body for them.
pub trait SharedMemory: Sized {
    /// The bytes of the segment.
    spec fn image(&self) -> Image;

    /// Nobody else writes to the segment.
    spec fn exclusive(&self) -> bool;

    /// How often this handle can still lose an exchange to other parties.
    spec fn contention(&self) -> Delays;

    /// What this handle did to the segment and saw of it so far.
    spec fn accesses(&self) -> Accesses;

    /// The size of the segment in bytes.
    fn size(&self) -> (r: usize)
        ensures
            r == self.image().len(),
    ;

    /// Reads `len` bytes.
    fn read(&self, off: usize, len: usize) -> (r: Vec<u8>)
        requires
            off + len <= self.image().len(),
        ensures
            r@.len() == len,
            self.exclusive() ==> r@ == bytes_at(self.image(), off as int, len as int),
    ;

    /// Writes bytes.
    fn write(&mut self, off: usize, data: &[u8])
        requires
            off + data@.len() <= old(self).image().len(),
        ensures
            final(self).image().len() == old(self).image().len(),
            final(self).exclusive() == old(self).exclusive(),
            final(self).contention() <= old(self).contention(),
            final(self).accesses() == old(self).accesses().push(
                (Access::Bytes { off: off as int, data: data@ }),
            ),
            old(self).exclusive() ==> final(self).image() == put(
                old(self).image(),
                off as int,
                data@,
            ),
    ;

    /// Waits, as a spinning processor does, until another party has replaced the
    /// value `busy`, and gives back the value that it then finds. Nobody would
    /// replace it on an exclusive handle.
    fn wait_while_u64(&mut self, off: usize, busy: u64) -> (r: u64)
        requires
            off + 8 <= old(self).image().len(),
            old(self).exclusive() ==> u64_at(old(self).image(), off as int) != busy,
        ensures
            final(self).image().len() == old(self).image().len(),
            final(self).exclusive() == old(self).exclusive(),
            final(self).contention() <= old(self).contention(),
            final(self).accesses() == old(self).accesses(),
            r != busy,
            old(self).exclusive() ==> {
                &&& r == u64_at(old(self).image(), off as int)
                &&& final(self).image() == old(self).image()
            },
    ;

    /// Reads a 32-bit value.
    fn load_u32(&self, off: usize) -> (r: u32)
        requires
            off + 4 <= self.image().len(),
        ensures
            self.exclusive() ==> r == u32_at(self.image(), off as int),
    ;

    /// Reads a 64-bit value.
    fn load_u64(&self, off: usize) -> (r: u64)
        requires
            off + 8 <= self.image().len(),
        ensures
            self.exclusive() ==> r == u64_at(self.image(), off as int),
    ;

    /// Looks at a 32-bit value.
    fn look_u32(&mut self, off: usize) -> (r: u32)
        requires
            off + 4 <= old(self).image().len(),
        ensures
            final(self).image().len() == old(self).image().len(),
            final(self).exclusive() == old(self).exclusive(),
            final(self).contention() <= old(self).contention(),
            final(self).accesses() == old(self).accesses().push(
                (Access::Look32 { off: off as int, found: r }),
            ),
            old(self).exclusive() ==> {
                &&& r == u32_at(old(self).image(), off as int)
                &&& final(self).image() == old(self).image()
            },
    ;

    /// Looks at a 64-bit value.
    fn look_u64(&mut self, off: usize) -> (r: u64)
        requires
            off + 8 <= old(self).image().len(),
        ensures
            final(self).image().len() == old(self).image().len(),
            final(self).exclusive() == old(self).exclusive(),
            final(self).contention() <= old(self).contention(),
            final(self).accesses() == old(self).accesses().push(
                (Access::Look64 { off: off as int, found: r }),
            ),
            old(self).exclusive() ==> {
                &&& r == u64_at(old(self).image(), off as int)
                &&& final(self).image() == old(self).image()
            },
    ;

    /// Copies `len` bytes.
    fn copy(&mut self, off: usize, len: usize) -> (r: Vec<u8>)
        requires
            off + len <= old(self).image().len(),
        ensures
            final(self).image().len() == old(self).image().len(),
            final(self).exclusive() == old(self).exclusive(),
            final(self).contention() <= old(self).contention(),
            final(self).accesses() == old(self).accesses().push(
                (Access::Copied { off: off as int, found: r@ }),
            ),
            r@.len() == len,
            old(self).exclusive() ==> {
                &&& r@ == bytes_at(old(self).image(), off as int, len as int)
                &&& final(self).image() == old(self).image()
            },
    ;

    /// Writes a 32-bit value.
    fn store_u32(&mut self, off: usize, v: u32)
        requires
            off + 4 <= old(self).image().len(),
        ensures
            final(self).image().len() == old(self).image().len(),
            final(self).exclusive() == old(self).exclusive(),
            final(self).contention() <= old(self).contention(),
            final(self).accesses() == old(self).accesses().push(
                (Access::Word32 { off: off as int, v }),
            ),
            old(self).exclusive() ==> final(self).image() == put32(
                old(self).image(),
                off as int,
                v,
            ),
    ;

    /// Writes a 64-bit value.
    fn store_u64(&mut self, off: usize, v: u64)
        requires
            off + 8 <= old(self).image().len(),
        ensures
            final(self).image().len() == old(self).image().len(),
            final(self).exclusive() == old(self).exclusive(),
            final(self).contention() <= old(self).contention(),
            final(self).accesses() == old(self).accesses().push(
                (Access::Word64 { off: off as int, v }),
            ),
            old(self).exclusive() ==> final(self).image() == put64(
                old(self).image(),
                off as int,
                v,
            ),
    ;

    /// Accesses `new` if the value is still `current`. Gives back the value it
    /// found: `Ok` when that was `current` and the store happened, `Err` otherwise.
    fn compare_exchange_u32(&mut self, off: usize, current: u32, new: u32) -> (r: Result<u32, u32>)
        requires
            off + 4 <= old(self).image().len(),
        ensures
            final(self).image().len() == old(self).image().len(),
            final(self).exclusive() == old(self).exclusive(),
            final(self).contention() <= old(self).contention(),
            final(self).accesses() == old(self).accesses().push(
                (Access::Exchange32 { off: off as int, current, new, found: r }),
            ),
            r is Err && !old(self).exclusive() ==> final(self).contention()
                < old(self).contention(),
            r matches Ok(v) ==> v == current,
            old(self).exclusive() ==> {
                let v = u32_at(old(self).image(), off as int);
                if v == current {
                    &&& r == Ok::<u32, u32>(v)
                    &&& final(self).image() == put32(old(self).image(), off as int, new)
                } else {
                    &&& r == Err::<u32, u32>(v)
                    &&& final(self).image() == old(self).image()
                }
            },
    ;

    /// Accesses `new` if the value is still `current`. Gives back the value it
    /// found: `Ok` when that was `current` and the store happened, `Err` otherwise.
    fn compare_exchange_u64(&mut self, off: usize, current: u64, new: u64) -> (r: Result<u64, u64>)
        requires
            off + 8 <= old(self).image().len(),
        ensures
            final(self).image().len() == old(self).image().len(),
            final(self).exclusive() == old(self).exclusive(),
            final(self).contention() <= old(self).contention(),
            final(self).accesses() == old(self).accesses().push(
                (Access::Exchange64 { off: off as int, current, new, found: r }),
            ),
            r is Err && !old(self).exclusive() ==> final(self).contention()
                < old(self).contention(),
            r matches Ok(v) ==> v == current,
            old(self).exclusive() ==> {
                let v = u64_at(old(self).image(), off as int);
                if v == current {
                    &&& r == Ok::<u64, u64>(v)
                    &&& final(self).image() == put64(old(self).image(), off as int, new)
                } else {
                    &&& r == Err::<u64, u64>(v)
                    &&& final(self).image() == old(self).image()
                }
            },
    ;

    /// Adds `v`, wrapping around, and gives back the value from before.
    fn fetch_add_u32(&mut self, off: usize, v: u32) -> (r: u32)
        requires
            off + 4 <= old(self).image().len(),
        ensures
            final(self).image().len() == old(self).image().len(),
            final(self).exclusive() == old(self).exclusive(),
            final(self).contention() <= old(self).contention(),
            final(self).accesses() == old(self).accesses().push(
                (Access::Add32 { off: off as int, v, was: r }),
            ),
            old(self).exclusive() ==> {
                &&& r == u32_at(old(self).image(), off as int)
                &&& final(self).image() == put32(
                    old(self).image(),
                    off as int,
                    wrapping_sum_u32(r, v),
                )
            },
    ;

    /// Subtracts `v`, wrapping around, and gives back the value from before.
    fn fetch_sub_u32(&mut self, off: usize, v: u32) -> (r: u32)
        requires
            off + 4 <= old(self).image().len(),
        ensures
            final(self).image().len() == old(self).image().len(),
            final(self).exclusive() == old(self).exclusive(),
            final(self).contention() <= old(self).contention(),
            final(self).accesses() == old(self).accesses().push(
                (Access::Subtract32 { off: off as int, v, was: r }),
            ),
            old(self).exclusive() ==> {
                &&& r == u32_at(old(self).image(), off as int)
                &&& final(self).image() == put32(
                    old(self).image(),
                    off as int,
                    wrapping_difference_u32(r, v),
                )
            },
    ;

    /// Adds `v`, wrapping around, and gives back the value from before.
    fn fetch_add_u64(&mut self, off: usize, v: u64) -> (r: u64)
        requires
            off + 8 <= old(self).image().len(),
        ensures
            final(self).image().len() == old(self).image().len(),
            final(self).exclusive() == old(self).exclusive(),
            final(self).contention() <= old(self).contention(),
            final(self).accesses() == old(self).accesses().push(
                (Access::Add64 { off: off as int, v, was: r }),
            ),
            old(self).exclusive() ==> {
                &&& r == u64_at(old(self).image(), off as int)
                &&& final(self).image() == put64(
                    old(self).image(),
                    off as int,
                    wrapping_sum_u64(r, v),
                )
            },
    ;

    /// Raises the value to at least `v` and gives back the value from before.
    fn fetch_max_u64(&mut self, off: usize, v: u64) -> (r: u64)
        requires
            off + 8 <= old(self).image().len(),
        ensures
            final(self).image().len() == old(self).image().len(),
            final(self).exclusive() == old(self).exclusive(),
            final(self).contention() <= old(self).contention(),
            final(self).accesses() == old(self).accesses().push(
                (Access::Raise64 { off: off as int, v, was: r }),
            ),
            old(self).exclusive() ==> {
                &&& r == u64_at(old(self).image(), off as int)
                &&& final(self).image() == put64(
                    old(self).image(),
                    off as int,
                    larger_u64(r, v),
                )
            },
    ;
}

/// A segment on the heap of one process, which only its owner writes to.
pub struct HeapMemory {
    /// The bytes.
    pub bytes: Vec<u8>,
    /// What was done to them.
    pub done: Ghost<Accesses>,
}

impl HeapMemory {
    /// A segment of `len` zero bytes.
    pub fn zeroed(len: usize) -> (r: HeapMemory)
        ensures
            r.image() == Seq::new(len as nat, |i: int| 0u8),
            r.exclusive(),
            r.accesses() == Seq::<Access>::empty(),
    {
        let bytes: Vec<u8> = vec![0u8; len];
        assert(bytes@ =~= Seq::new(len as nat, |i: int| 0u8));
        HeapMemory { bytes, done: Ghost(Seq::empty()) }
    }

    fn set_u32(&mut self, off: usize, v: u32)
        requires
            off + 4 <= old(self).bytes@.len(),
        ensures
            final(self).bytes@ == put32(old(self).bytes@, off as int, v),
            final(self).done == old(self).done,
    {
        let mut b: Vec<u8> = Vec::new();
        push_u32(&mut b, v);
        assert(b@ =~= le32(v));
        put_bytes(&mut self.bytes, off, b.as_slice());
    }

    fn set_u64(&mut self, off: usize, v: u64)
        requires
            off + 8 <= old(self).bytes@.len(),
        ensures
            final(self).bytes@ == put64(old(self).bytes@, off as int, v),
            final(self).done == old(self).done,
    {
        let mut b: Vec<u8> = Vec::new();
        push_u64(&mut b, v);
        assert(b@ =~= le64(v));
        put_bytes(&mut self.bytes, off, b.as_slice());
    }
}

impl SharedMemory for HeapMemory {
    open spec fn image(&self) -> Seq<u8> {
        self.bytes@
    }

    open spec fn exclusive(&self) -> bool {
        true
    }

    open spec fn contention(&self) -> nat {
        0
    }

    open spec fn accesses(&self) -> Seq<Access> {
        self.done@
    }

    fn size(&self) -> (r: usize) {
        self.bytes.len()
    }

    fn read(&self, off: usize, len: usize) -> (r: Vec<u8>) {
        let n: usize = self.bytes.len();
        copy_range(self.bytes.as_slice(), off, off + len)
    }

    fn write(&mut self, off: usize, data: &[u8]) {
        put_bytes(&mut self.bytes, off, data);
        self.done = Ghost(self.done@.push(Access::Bytes { off: off as int, data: data@ }));
    }

    fn wait_while_u64(&mut self, off: usize, busy: u64) -> (r: u64) {
        self.load_u64(off)
    }

    fn load_u32(&self, off: usize) -> (r: u32) {
        get_u32(self.bytes.as_slice(), off)
    }

    fn load_u64(&self, off: usize) -> (r: u64) {
        get_u64(self.bytes.as_slice(), off)
    }

    fn look_u32(&mut self, off: usize) -> (r: u32) {
        let found: u32 = self.load_u32(off);
        self.done = Ghost(self.done@.push(Access::Look32 { off: off as int, found }));
        found
    }

    fn look_u64(&mut self, off: usize) -> (r: u64) {
        let found: u64 = self.load_u64(off);
        self.done = Ghost(self.done@.push(Access::Look64 { off: off as int, found }));
        found
    }

    fn copy(&mut self, off: usize, len: usize) -> (r: Vec<u8>) {
        let found: Vec<u8> = self.read(off, len);
        self.done = Ghost(self.done@.push(Access::Copied { off: off as int, found: found@ }));
        found
    }

    fn store_u32(&mut self, off: usize, v: u32) {
        self.set_u32(off, v);
        self.done = Ghost(self.done@.push(Access::Word32 { off: off as int, v }));
    }

    fn store_u64(&mut self, off: usize, v: u64) {
        self.set_u64(off, v);
        self.done = Ghost(self.done@.push(Access::Word64 { off: off as int, v }));
    }

    fn compare_exchange_u32(&mut self, off: usize, current: u32, new: u32) -> (r: Result<u32, u32>) {
        let v: u32 = self.load_u32(off);
        let found: Result<u32, u32> = if v == current { Ok(v) } else { Err(v) };
        if v == current {
            self.set_u32(off, new);
        }
        self.done = Ghost(
            self.done@.push(Access::Exchange32 { off: off as int, current, new, found }),
        );
        found
    }

    fn compare_exchange_u64(&mut self, off: usize, current: u64, new: u64) -> (r: Result<u64, u64>) {
        let v: u64 = self.load_u64(off);
        let found: Result<u64, u64> = if v == current { Ok(v) } else { Err(v) };
        if v == current {
            self.set_u64(off, new);
        }
        self.done = Ghost(
            self.done@.push(Access::Exchange64 { off: off as int, current, new, found }),
        );
        found
    }

    fn fetch_add_u32(&mut self, off: usize, v: u32) -> (r: u32) {
        let before: u32 = self.load_u32(off);
        self.set_u32(off, before.wrapping_add(v));
        self.done = Ghost(self.done@.push(Access::Add32 { off: off as int, v, was: before }));
        before
    }

    fn fetch_sub_u32(&mut self, off: usize, v: u32) -> (r: u32) {
        let before: u32 = self.load_u32(off);
        self.set_u32(off, before.wrapping_sub(v));
        self.done = Ghost(self.done@.push(Access::Subtract32 { off: off as int, v, was: before }));
        before
    }

    fn fetch_add_u64(&mut self, off: usize, v: u64) -> (r: u64) {
        let before: u64 = self.load_u64(off);
        self.set_u64(off, before.wrapping_add(v));
        self.done = Ghost(self.done@.push(Access::Add64 { off: off as int, v, was: before }));
        before
    }

    fn fetch_max_u64(&mut self, off: usize, v: u64) -> (r: u64) {
        let before: u64 = self.load_u64(off);
        self.set_u64(off, if before < v { v } else { before });
        self.done = Ghost(self.done@.push(Access::Raise64 { off: off as int, v, was: before }));
        before
    }
}

} // verus!
