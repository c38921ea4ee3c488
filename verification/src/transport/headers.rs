//! The wire format of headers.
//!
//! A 16-bit number of headers, then for each header a 16-bit length and the
//! bytes of the key, and a 16-bit length and the bytes of the value.

use crate::error::{self, CrossbarError};
use crate::memory::{self, copy_range, get_u16, push_u16};
use crate::text::{self, add_number, add_text, bytes_of, text_of_bytes};
use crate::types::{self, StringMap};
use vstd::prelude::*;

verus! {

broadcast use crate::memory::group_memory;

/// A length as its 16-bit field holds it.
pub open spec fn field16(n: nat) -> u16 {
    (n % 65536) as u16
}

/// A text behind its length.
pub open spec fn prefixed(s: Seq<char>) -> Seq<u8> {
    memory::le16(field16(types::text_bytes(s).len())) + types::text_bytes(s)
}

/// The bytes of the first `n` headers.
pub open spec fn entry_bytes(p: types::Pairs, n: nat) -> Seq<u8>
    decreases n,
{
    if n == 0 {
        Seq::empty()
    } else {
        entry_bytes(p, (n - 1) as nat) + (prefixed(p[n - 1].0) + prefixed(p[n - 1].1))
    }
}

/// The bytes of some headers.
pub open spec fn header_bytes(p: types::Pairs) -> Seq<u8> {
    memory::le16(field16(p.len())) + entry_bytes(p, p.len())
}

/// All lengths fit in their fields.
pub open spec fn fit_fields(p: types::Pairs) -> bool {
    &&& p.len() <= 65535
    &&& forall|i: int|
        0 <= i < p.len() ==> types::text_bytes((#[trigger] p[i]).0).len() <= 65535
            && types::text_bytes(p[i].1).len() <= 65535
}

/// The error of writing the headers from the `i`th on, at `pos` of `max` bytes
/// of room.
pub open spec fn entry_fault(
    p: types::Pairs,
    max: nat,
    i: int,
    pos: nat,
) -> Option<error::CrossbarErrorView>
    decreases p.len() - i,
{
    if i < 0 || i >= p.len() {
        None
    } else {
        let k = types::text_bytes(p[i].0).len();
        let v = types::text_bytes(p[i].1).len();
        if k > 65535 {
            Some(
                error::CrossbarErrorView::HeaderOverflow(
                    "header key length "@ + text::decimal(k) + " exceeds u16::MAX"@,
                ),
            )
        } else if v > 65535 {
            Some(
                error::CrossbarErrorView::HeaderOverflow(
                    "header value length "@ + text::decimal(v) + " exceeds u16::MAX"@,
                ),
            )
        } else if pos + 4 + k + v > max {
            Some(
                error::CrossbarErrorView::ShmMessageTooLarge {
                    size: (pos + 4 + k + v) as u64,
                    max: max as u64,
                },
            )
        } else {
            entry_fault(p, max, i + 1, pos + 4 + k + v)
        }
    }
}

/// The error of writing headers into `max` bytes, if there is one.
pub open spec fn headers_fault(p: types::Pairs, max: nat) -> Option<error::CrossbarErrorView> {
    if p.len() > 65535 {
        Some(
            error::CrossbarErrorView::HeaderOverflow(
                "header count "@ + text::decimal(p.len()) + " exceeds u16::MAX"@,
            ),
        )
    } else if max < 2 {
        Some(error::CrossbarErrorView::ShmMessageTooLarge { size: 2, max: max as u64 })
    } else {
        entry_fault(p, max, 0, 2)
    }
}

/// The first header, from the `i`th on, that cannot be written at `pos` of `max`
/// bytes of room; or the number of all where there is none.
pub open spec fn entries_written(p: types::Pairs, max: nat, i: int, pos: nat) -> int
    decreases p.len() - i,
{
    if i < 0 || i >= p.len() {
        i
    } else {
        let k = types::text_bytes(p[i].0).len();
        let v = types::text_bytes(p[i].1).len();
        if k > 65535 || v > 65535 || pos + 4 + k + v > max {
            i
        } else {
            entries_written(p, max, i + 1, pos + 4 + k + v)
        }
    }
}

/// What is written of headers into `max` bytes: all of them, or those in front
/// of the first one that cannot be.
pub open spec fn headers_written(p: types::Pairs, max: nat) -> Seq<u8> {
    if p.len() > 65535 || max < 2 {
        Seq::empty()
    } else {
        memory::le16(field16(p.len())) + entry_bytes(p, entries_written(p, max, 0, 2) as nat)
    }
}

/// What is written of headers fits in the room.
pub proof fn lemma_written_fits(p: types::Pairs, max: nat)
    ensures
        headers_written(p, max).len() <= max,
        headers_fault(p, max) is None ==> headers_written(p, max) == header_bytes(p),
{
    if p.len() <= 65535 && max >= 2 {
        lemma_entries_written(p, max, 0);
    }
}

proof fn lemma_entries_written(p: types::Pairs, max: nat, i: nat)
    requires
        i <= p.len(),
        2 + entry_bytes(p, i).len() <= max,
    ensures
        ({
            let pos = 2 + entry_bytes(p, i).len();
            let n = entries_written(p, max, i as int, pos);
            &&& i <= n <= p.len()
            &&& 2 + entry_bytes(p, n as nat).len() <= max
            &&& entry_fault(p, max, i as int, pos) is None ==> n == p.len()
        }),
    decreases p.len() - i,
{
    if i < p.len() {
        let k = types::text_bytes(p[i as int].0).len();
        let v = types::text_bytes(p[i as int].1).len();
        let pos = 2 + entry_bytes(p, i).len();
        assert(entry_bytes(p, i + 1).len() + 2 == pos + 4 + k + v);
        if k <= 65535 && v <= 65535 && pos + 4 + k + v <= max {
            lemma_entries_written(p, max, i + 1);
        }
    }
}

/// Appends bytes.
pub fn push_bytes(out: &mut Vec<u8>, b: &[u8])
    ensures
        final(out)@ == old(out)@ + b@,
{
    let ghost before = out@;
    let mut i: usize = 0;
    while i < b.len()
        invariant
            i <= b@.len(),
            out@ =~= before + b@.subrange(0, i as int),
        decreases b@.len() - i,
    {
        out.push(b[i]);
        i = i + 1;
    }
    assert(b@.subrange(0, b@.len() as int) =~= b@);
}

fn push_prefixed(out: &mut Vec<u8>, s: &str)
    ensures
        final(out)@ == old(out)@ + prefixed(s@),
{
    let ghost before = out@;
    let b: &[u8] = bytes_of(s);
    push_u16(out, (b.len() % 65536) as u16);
    push_bytes(out, b);
    assert(out@ =~= before + prefixed(s@));
}

/// The bytes of headers. A length that is too large for its field loses its
/// upper bits.
pub fn serialize_headers(headers: &StringMap) -> (r: Vec<u8>)
    ensures
        r@ == header_bytes(headers.pairs()),
{
    let ghost p = headers.pairs();
    let mut out: Vec<u8> = Vec::new();
    push_u16(&mut out, (headers.entries.len() % 65536) as u16);
    let mut i: usize = 0;
    assert(out@ =~= memory::le16(field16(p.len())) + entry_bytes(p, 0));
    while i < headers.entries.len()
        invariant
            i <= headers.entries@.len(),
            p == headers.pairs(),
            out@ == memory::le16(field16(p.len())) + entry_bytes(p, i as nat),
        decreases headers.entries@.len() - i,
    {
        let ghost before = out@;
        push_prefixed(&mut out, headers.entries[i].0.as_str());
        push_prefixed(&mut out, headers.entries[i].1.as_str());
        assert(p[i as int] == (headers.entries@[i as int].0@, headers.entries@[i as int].1@));
        assert(out@ =~= memory::le16(field16(p.len())) + entry_bytes(p, (i + 1) as nat));
        i = i + 1;
    }
    out
}

/// Appends the bytes of headers, for which there are `max` bytes of room, and
/// gives their number. Fails where a length is too large for its field or the
/// room is not enough; the headers in front of that one are appended all the
/// same.
pub fn serialize_headers_into(headers: &StringMap, max: u32, out: &mut Vec<u8>) -> (r: Result<
    usize,
    CrossbarError,
>)
    ensures
        final(out)@ == old(out)@ + headers_written(headers.pairs(), max as nat),
        headers_written(headers.pairs(), max as nat).len() <= max,
        match headers_fault(headers.pairs(), max as nat) {
            None => {
                &&& r matches Ok(n) && n == header_bytes(headers.pairs()).len()
                &&& headers_written(headers.pairs(), max as nat) == header_bytes(headers.pairs())
                &&& fit_fields(headers.pairs())
            },
            Some(f) => r matches Err(e) && e@ == f,
        },
{
    let ghost p = headers.pairs();
    let ghost before = out@;
    proof {
        lemma_written_fits(p, max as nat);
    }
    let n: usize = headers.entries.len();
    if n > 65535 {
        let s: String = add_number(text::text("header count "), n as u64);
        assert(out@ =~= before + headers_written(p, max as nat));
        return Err(CrossbarError::HeaderOverflow(add_text(s, " exceeds u16::MAX")));
    }
    if max < 2 {
        assert(out@ =~= before + headers_written(p, max as nat));
        return Err(CrossbarError::ShmMessageTooLarge { size: 2, max: max as u64 });
    }
    push_u16(out, n as u16);
    let mut pos: u64 = 2;
    let mut i: usize = 0;
    assert(out@ =~= before + (memory::le16(field16(p.len())) + entry_bytes(p, 0)));
    assert(header_bytes(p).len() == 2 + entry_bytes(p, p.len()).len());
    while i < n
        invariant
            i <= n,
            n == headers.entries@.len(),
            n <= 65535,
            p == headers.pairs(),
            2 <= pos <= max,
            pos == 2 + entry_bytes(p, i as nat).len(),
            out@ == before + (memory::le16(field16(p.len())) + entry_bytes(p, i as nat)),
            before == old(out)@,
            entry_fault(p, max as nat, i as int, pos as nat) == entry_fault(p, max as nat, 0, 2),
            entries_written(p, max as nat, i as int, pos as nat) == entries_written(
                p,
                max as nat,
                0,
                2,
            ),
            headers_written(p, max as nat).len() <= max,
            forall|j: int|
                0 <= j < i ==> types::text_bytes((#[trigger] p[j]).0).len() <= 65535
                    && types::text_bytes(p[j].1).len() <= 65535,
        decreases n - i,
    {
        assert(p[i as int] == (headers.entries@[i as int].0@, headers.entries@[i as int].1@));
        let k: usize = bytes_of(headers.entries[i].0.as_str()).len();
        let v: usize = bytes_of(headers.entries[i].1.as_str()).len();
        if k > 65535 {
            let s: String = add_number(text::text("header key length "), k as u64);
            return Err(CrossbarError::HeaderOverflow(add_text(s, " exceeds u16::MAX")));
        }
        if v > 65535 {
            let s: String = add_number(text::text("header value length "), v as u64);
            return Err(CrossbarError::HeaderOverflow(add_text(s, " exceeds u16::MAX")));
        }
        let end: u64 = pos + 4 + k as u64 + v as u64;
        if end > max as u64 {
            return Err(CrossbarError::ShmMessageTooLarge { size: end, max: max as u64 });
        }
        push_prefixed(out, headers.entries[i].0.as_str());
        push_prefixed(out, headers.entries[i].1.as_str());
        assert(out@ =~= before + (memory::le16(field16(p.len())) + entry_bytes(
            p,
            (i + 1) as nat,
        )));
        pos = end;
        i = i + 1;
    }
    Ok(pos as usize)
}

/// Reads `n` more headers at `pos`, behind those in `before`.
pub open spec fn entries_from(
    data: Seq<u8>,
    pos: int,
    n: nat,
    before: types::Pairs,
) -> Result<types::Pairs, Seq<char>>
    decreases n,
{
    if n == 0 {
        Ok(before)
    } else if pos + 2 > data.len() {
        Err("truncated header key length"@)
    } else {
        let key_len = memory::u16_at(data, pos) as int;
        if pos + 2 + key_len > data.len() {
            Err("truncated header key"@)
        } else {
            let key = data.subrange(pos + 2, pos + 2 + key_len);
            let mid = pos + 2 + key_len;
            if !vstd::utf8::valid_utf8(key) {
                Err("header key not UTF-8"@)
            } else if mid + 2 > data.len() {
                Err("truncated header value length"@)
            } else {
                let val_len = memory::u16_at(data, mid) as int;
                if mid + 2 + val_len > data.len() {
                    Err("truncated header value"@)
                } else {
                    let val = data.subrange(mid + 2, mid + 2 + val_len);
                    if !vstd::utf8::valid_utf8(val) {
                        Err("header value not UTF-8"@)
                    } else {
                        entries_from(
                            data,
                            mid + 2 + val_len,
                            (n - 1) as nat,
                            types::with_pair(
                                before,
                                vstd::utf8::decode_utf8(key),
                                vstd::utf8::decode_utf8(val),
                            ),
                        )
                    }
                }
            }
        }
    }
}

/// The headers in some bytes, or what is wrong with the bytes. What is behind
/// the last header does not count. Of a key that occurs twice the last value
/// counts.
pub open spec fn headers_in(data: Seq<u8>) -> Result<types::Pairs, Seq<char>> {
    if data.len() < 2 {
        Err("headers data too short"@)
    } else {
        entries_from(data, 2, memory::u16_at(data, 0) as nat, Seq::empty())
    }
}

/// The outcome of reading headers as a transport error.
pub open spec fn headers_read(
    r: Result<StringMap, CrossbarError>,
    expected: Result<types::Pairs, Seq<char>>,
) -> bool {
    match expected {
        Ok(p) => r matches Ok(map) && map.pairs() == p && map.wf(),
        Err(m) => r matches Err(e) && e@ == error::CrossbarErrorView::Io(m),
    }
}

fn invalid_data(m: &str) -> (r: CrossbarError)
    ensures
        r@ == error::CrossbarErrorView::Io(m@),
{
    CrossbarError::Io(text::text(m))
}

/// Reads headers.
pub fn deserialize_headers(data: &[u8]) -> (r: Result<StringMap, CrossbarError>)
    ensures
        headers_read(r, headers_in(data@)),
{
    let len: usize = data.len();
    if len < 2 {
        return Err(invalid_data("headers data too short"));
    }
    let num: u16 = get_u16(data, 0);
    let mut pos: usize = 2;
    let mut headers: StringMap = StringMap::new();
    let mut left: u16 = num;
    while left > 0
        invariant
            len == data@.len(),
            pos <= len,
            headers.wf(),
            entries_from(data@, pos as int, left as nat, headers.pairs()) == headers_in(data@),
        decreases left,
    {
        if len - pos < 2 {
            return Err(invalid_data("truncated header key length"));
        }
        let key_len: usize = get_u16(data, pos) as usize;
        if len - pos - 2 < key_len {
            return Err(invalid_data("truncated header key"));
        }
        let mid: usize = pos + 2 + key_len;
        let key: String = match text_of_bytes(copy_range(data, pos + 2, mid).as_slice()) {
            Some(s) => s,
            None => {
                return Err(invalid_data("header key not UTF-8"));
            },
        };
        if len - mid < 2 {
            return Err(invalid_data("truncated header value length"));
        }
        let val_len: usize = get_u16(data, mid) as usize;
        if len - mid - 2 < val_len {
            return Err(invalid_data("truncated header value"));
        }
        let end: usize = mid + 2 + val_len;
        let val: String = match text_of_bytes(copy_range(data, mid + 2, end).as_slice()) {
            Some(s) => s,
            None => {
                return Err(invalid_data("header value not UTF-8"));
            },
        };
        headers.insert(key, val);
        pos = end;
        left = left - 1;
    }
    Ok(headers)
}

/// Headers can be written exactly where their lengths fit in their fields and
/// their bytes fit in the room.
pub proof fn law_headers_fit(p: types::Pairs, max: nat)
    ensures
        headers_fault(p, max) is None <==> fit_fields(p) && header_bytes(p).len() <= max,
{
    assert(header_bytes(p).len() == 2 + entry_bytes(p, p.len()).len());
    if p.len() <= 65535 && max >= 2 {
        lemma_entries_fit(p, max, p.len());
    }
}

proof fn lemma_entries_fit(p: types::Pairs, max: nat, left: nat)
    requires
        left <= p.len(),
        2 + entry_bytes(p, (p.len() - left) as nat).len() <= max,
    ensures
        ({
            let i = p.len() - left;
            entry_fault(p, max, i, 2 + entry_bytes(p, i as nat).len()) is None <==> {
                &&& forall|j: int|
                    i <= j < p.len() ==> types::text_bytes((#[trigger] p[j]).0).len() <= 65535
                        && types::text_bytes(p[j].1).len() <= 65535
                &&& 2 + entry_bytes(p, p.len()).len() <= max
            }
        }),
    decreases left,
{
    let i = p.len() - left;
    if left > 0 {
        let k = types::text_bytes(p[i].0).len();
        let v = types::text_bytes(p[i].1).len();
        let pos = 2 + entry_bytes(p, i as nat).len();
        assert(entry_bytes(p, (i + 1) as nat).len() + 2 == pos + 4 + k + v);
        lemma_entries_grow(p, (i + 1) as nat, p.len());
        if k <= 65535 && v <= 65535 && pos + 4 + k + v <= max {
            lemma_entries_fit(p, max, (left - 1) as nat);
        } else {
            assert(p[i] == p[i]);
        }
    }
}

/// Headers read back as they were written, whatever follows them.
pub proof fn law_headers_round_trip(p: types::Pairs, rest: Seq<u8>)
    requires
        fit_fields(p),
        types::distinct_keys(p),
    ensures
        headers_in(header_bytes(p) + rest) == Ok::<types::Pairs, Seq<char>>(p),
{
    let data = header_bytes(p) + rest;
    assert(memory::u16_at(data, 0) == p.len()) by {
        assert(data[0] == memory::le16(field16(p.len()))[0]);
        assert(data[1] == memory::le16(field16(p.len()))[1]);
    }
    assert(p.subrange(0, 0) =~= Seq::<(Seq<char>, Seq<char>)>::empty());
    lemma_read_entries(p, rest, p.len());
}

proof fn lemma_entries_grow(p: types::Pairs, i: nat, n: nat)
    requires
        i <= n <= p.len(),
    ensures
        entry_bytes(p, i).len() <= entry_bytes(p, n).len(),
        entry_bytes(p, i) =~= entry_bytes(p, n).subrange(0, entry_bytes(p, i).len() as int),
    decreases n - i,
{
    if i < n {
        lemma_entries_grow(p, i, (n - 1) as nat);
    }
}

/// A text behind its length is found in the bytes that hold it.
proof fn lemma_prefixed(data: Seq<u8>, pos: int, s: Seq<char>)
    requires
        0 <= pos,
        pos + prefixed(s).len() <= data.len(),
        data.subrange(pos, pos + prefixed(s).len()) == prefixed(s),
        types::text_bytes(s).len() <= 65535,
    ensures
        memory::u16_at(data, pos) == types::text_bytes(s).len(),
        data.subrange(pos + 2, pos + 2 + types::text_bytes(s).len()) == types::text_bytes(s),
{
    let t = data.subrange(pos, pos + prefixed(s).len());
    let l = memory::le16(field16(types::text_bytes(s).len()));
    assert(t[0] == l[0] && t[1] == l[1]);
    assert(data[pos] == t[0] && data[pos + 1] == t[1]);
    assert forall|i: int| 0 <= i < types::text_bytes(s).len() implies data[pos + 2 + i]
        == types::text_bytes(s)[i] by {
        assert(t[2 + i] == prefixed(s)[2 + i]);
    }
    assert(data.subrange(pos + 2, pos + 2 + types::text_bytes(s).len()) =~= types::text_bytes(s));
}

/// A header is found in the bytes of all headers.
proof fn lemma_entry_found(p: types::Pairs, rest: Seq<u8>, i: nat)
    requires
        i < p.len(),
    ensures
        ({
            let data = header_bytes(p) + rest;
            let k = prefixed(p[i as int].0);
            let v = prefixed(p[i as int].1);
            let pos = 2 + entry_bytes(p, i).len() as int;
            &&& pos + k.len() + v.len() <= data.len()
            &&& entry_bytes(p, i + 1).len() == entry_bytes(p, i).len() + k.len() + v.len()
            &&& data.subrange(pos, pos + k.len()) == k
            &&& data.subrange(pos + k.len(), pos + k.len() + v.len()) == v
        }),
{
    let data = header_bytes(p) + rest;
    let k = prefixed(p[i as int].0);
    let v = prefixed(p[i as int].1);
    let e = entry_bytes(p, i);
    let f = entry_bytes(p, i + 1);
    let pos = 2 + e.len() as int;
    lemma_entries_grow(p, i + 1, p.len());
    assert(f == e + (k + v));
    assert forall|j: int| 0 <= j < f.len() implies data[2 + j] == #[trigger] f[j] by {
        assert(f[j] == entry_bytes(p, p.len())[j]);
    }
    assert forall|j: int| 0 <= j < k.len() implies data[pos + j] == #[trigger] k[j] by {
        assert(f[e.len() + j] == k[j]);
    }
    assert forall|j: int| 0 <= j < v.len() implies data[pos + k.len() + j] == #[trigger] v[j] by {
        assert(f[e.len() + k.len() + j] == v[j]);
    }
    assert(data.subrange(pos, pos + k.len()) =~= k);
    assert(data.subrange(pos + k.len(), pos + k.len() + v.len()) =~= v);
}

/// The first `i` pairs with the next one are the first `i + 1`.
proof fn lemma_next_pair(p: types::Pairs, i: int)
    requires
        types::distinct_keys(p),
        0 <= i < p.len(),
    ensures
        types::with_pair(p.subrange(0, i), p[i].0, p[i].1) == p.subrange(0, i + 1),
{
    let before = p.subrange(0, i);
    assert forall|j: int| 0 <= j < before.len() implies #[trigger] before[j].0 != p[i].0 by {
        assert(before[j] == p[j]);
    }
    types::lemma_key_missing(before, p[i].0, 0);
    assert(types::with_pair(before, p[i].0, p[i].1) =~= p.subrange(0, i + 1));
}

#[verifier::rlimit(40)]
proof fn lemma_read_entries(p: types::Pairs, rest: Seq<u8>, left: nat)
    requires
        fit_fields(p),
        types::distinct_keys(p),
        left <= p.len(),
    ensures
        ({
            let i = (p.len() - left) as nat;
            entries_from(
                header_bytes(p) + rest,
                2 + entry_bytes(p, i).len() as int,
                left,
                p.subrange(0, i as int),
            ) == Ok::<types::Pairs, Seq<char>>(p)
        }),
    decreases left,
{
    let i = (p.len() - left) as nat;
    if left == 0 {
        assert(p.subrange(0, i as int) =~= p);
    } else {
        lemma_read_entries(p, rest, (left - 1) as nat);
        lemma_entry_found(p, rest, i);
        let data = header_bytes(p) + rest;
        let k = p[i as int].0;
        let v = p[i as int].1;
        let pos = 2 + entry_bytes(p, i).len() as int;
        lemma_prefixed(data, pos, k);
        lemma_prefixed(data, pos + prefixed(k).len(), v);
        types::law_text_body_reads_back(k);
        types::law_text_body_reads_back(v);
        lemma_next_pair(p, i as int);
    }
}

} // verus!
