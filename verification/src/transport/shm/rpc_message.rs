//! Requests and responses as messages in blocks.
//!
//! A message is a head of sixteen bytes, the body, the URI of a request, and
//! the headers. Without headers there are no bytes for them.

use crate::error::{self, CrossbarError};
use crate::memory::{self, copy_range, get_u16, get_u32, push_u16, push_u32};
use crate::text::{self, bytes_of, text_of_bytes};
use crate::transport::headers::{self, deserialize_headers, push_bytes, serialize_headers_into};
use crate::types::{self, Body, Method, Request, Response, StringMap};
use vstd::prelude::*;

verus! {

broadcast use crate::memory::group_memory;

/// Size of the head.
pub const MSG_HEADER_SIZE: usize = 16;

/// The bytes of headers in a message.
pub open spec fn wire_headers(p: types::Pairs) -> Seq<u8> {
    if p.len() == 0 {
        Seq::empty()
    } else {
        headers::header_bytes(p)
    }
}

/// What is left of `max` bytes behind `used` of them.
pub open spec fn room(max: nat, used: nat) -> nat {
    if used > max {
        0
    } else {
        (max - used) as nat
    }
}

/// Why a message does not fit in `max` bytes: `used` is what stands before the
/// headers.
pub open spec fn message_fault(used: nat, p: types::Pairs, max: nat) -> Option<
    error::CrossbarErrorView,
> {
    if p.len() > 0 && headers::headers_fault(p, room(max, used)) is Some {
        headers::headers_fault(p, room(max, used))
    } else if used + wire_headers(p).len() > max {
        Some(
            error::CrossbarErrorView::ShmMessageTooLarge {
                size: (used + wire_headers(p).len()) as u64,
                max: max as u64,
            },
        )
    } else {
        None
    }
}

/// Bytes before the headers of a request.
pub open spec fn request_used(v: types::RequestView) -> nat {
    MSG_HEADER_SIZE as nat + v.body.len() + types::text_bytes(v.uri).len()
}

/// Bytes before the headers of a response.
pub open spec fn response_used(v: types::ResponseView) -> nat {
    MSG_HEADER_SIZE as nat + v.body.len()
}

/// The head of a request.
pub open spec fn request_head(v: types::RequestView, correlation: u32) -> Seq<u8> {
    seq![types::method_byte(v.method), 0u8] + memory::le16(
        headers::field16(types::text_bytes(v.uri).len()),
    ) + memory::le32(v.body.len() as u32) + memory::le32(wire_headers(v.headers).len() as u32)
        + memory::le32(correlation)
}

/// The bytes of a request.
pub open spec fn request_message(v: types::RequestView, correlation: u32) -> Seq<u8> {
    request_head(v, correlation) + v.body + types::text_bytes(v.uri) + wire_headers(v.headers)
}

/// The bytes of a response behind its status and two that do not matter.
pub open spec fn response_tail(v: types::ResponseView, correlation: u32) -> Seq<u8> {
    memory::le32(v.body.len() as u32) + memory::le32(wire_headers(v.headers).len() as u32)
        + memory::le32(correlation) + v.body + wire_headers(v.headers)
}

/// Length of the bytes of a response.
pub open spec fn response_len(v: types::ResponseView) -> nat {
    response_used(v) + wire_headers(v.headers).len()
}

/// What is written of the headers of a message, behind `used` of `max` bytes: they
/// are written first, before it is known whether the message fits.
pub open spec fn headers_tried(used: nat, p: types::Pairs, max: nat) -> Seq<u8> {
    if p.len() == 0 {
        Seq::empty()
    } else {
        headers::headers_written(p, room(max, used))
    }
}

/// A message that does not fit.
#[derive(Debug)]
pub struct Refusal {
    /// Why it does not.
    pub error: CrossbarError,
    /// Where its headers would begin, if some are written.
    pub at: usize,
    /// What is written of its headers.
    pub headers: Vec<u8>,
}

/// A refusal is that of a message with `used` bytes before its headers.
pub open spec fn refuses(
    r: Refusal,
    f: error::CrossbarErrorView,
    used: nat,
    p: types::Pairs,
    max: nat,
) -> bool {
    &&& r.error@ == f
    &&& r.headers@ == headers_tried(used, p, max)
    &&& r.headers@.len() > 0 ==> r.at == used && used + r.headers@.len() <= max
}

fn headers_for(headers: &StringMap, used: u128, max: u32) -> (r: Result<Vec<u8>, Refusal>)
    requires
        used <= 0x1_0000_0000_0000_0000_0000,
    ensures
        match message_fault(used as nat, headers.pairs(), max as nat) {
            None => r matches Ok(h) && h@ == wire_headers(headers.pairs()) && used + h@.len()
                <= max,
            Some(f) => r matches Err(e) && refuses(
                e,
                f,
                used as nat,
                headers.pairs(),
                max as nat,
            ),
        },
{
    let left: u32 = if used > max as u128 {
        0
    } else {
        (max as u128 - used) as u32
    };
    let mut h: Vec<u8> = Vec::new();
    if headers.entries.len() != 0 {
        if let Err(error) = serialize_headers_into(headers, left, &mut h) {
            assert(h@ =~= headers_tried(used as nat, headers.pairs(), max as nat));
            let at: usize = if used > max as u128 {
                0
            } else {
                used as usize
            };
            return Err(Refusal { error, at, headers: h });
        }
        assert(h@ =~= headers_tried(used as nat, headers.pairs(), max as nat));
    } else {
        assert(h@ =~= Seq::<u8>::empty());
    }
    let total: u128 = used + h.len() as u128;
    if total > max as u128 {
        let error: CrossbarError = CrossbarError::ShmMessageTooLarge {
            size: total as u64,
            max: max as u64,
        };
        return Err(Refusal { error, at: 0, headers: h });
    }
    Ok(h)
}

/// The bytes of a request, for a block with `max` bytes of room.
pub fn encode_request(req: &Request, correlation: u32, max: u32) -> (r: Result<Vec<u8>, Refusal>)
    ensures
        match message_fault(request_used(req@), req@.headers, max as nat) {
            None => r matches Ok(b) && b@ == request_message(req@, correlation) && b@.len() <= max
                && b@.len() == request_used(req@) + wire_headers(req@.headers).len(),
            Some(f) => r matches Err(e) && refuses(
                e,
                f,
                request_used(req@),
                req@.headers,
                max as nat,
            ),
        },
{
    let uri: &[u8] = bytes_of(req.uri.raw());
    let body: Vec<u8> = req.body.to_vec();
    let uri_len: usize = uri.len();
    let body_len: usize = body.len();
    let used: u128 = MSG_HEADER_SIZE as u128 + body_len as u128 + uri_len as u128;
    let h: Vec<u8> = match headers_for(&req.headers, used, max) {
        Ok(h) => h,
        Err(e) => {
            return Err(e);
        },
    };
    let mut out: Vec<u8> = Vec::new();
    out.push(u8::from(req.method));
    out.push(0);
    push_u16(&mut out, (uri_len % 65536) as u16);
    push_u32(&mut out, body_len as u32);
    push_u32(&mut out, h.len() as u32);
    push_u32(&mut out, correlation);
    assert(out@ =~= request_head(req@, correlation));
    push_bytes(&mut out, body.as_slice());
    push_bytes(&mut out, uri);
    push_bytes(&mut out, h.as_slice());
    assert(out@ =~= request_message(req@, correlation));
    Ok(out)
}

/// The bytes of a response behind its status, for a block with `max` bytes of
/// room.
pub fn encode_response(resp: &Response, correlation: u32, max: u32) -> (r: Result<
    Vec<u8>,
    Refusal,
>)
    ensures
        match message_fault(response_used(resp@), resp@.headers, max as nat) {
            None => r matches Ok(b) && b@ == response_tail(resp@, correlation) && b@.len() + 4
                == response_len(resp@) && response_len(resp@) <= max,
            Some(f) => r matches Err(e) && refuses(
                e,
                f,
                response_used(resp@),
                resp@.headers,
                max as nat,
            ),
        },
{
    let body: Vec<u8> = resp.body.to_vec();
    let body_len: usize = body.len();
    let used: u128 = MSG_HEADER_SIZE as u128 + body_len as u128;
    let h: Vec<u8> = match headers_for(&resp.headers, used, max) {
        Ok(h) => h,
        Err(e) => {
            return Err(e);
        },
    };
    let mut out: Vec<u8> = Vec::new();
    push_u32(&mut out, body_len as u32);
    push_u32(&mut out, h.len() as u32);
    push_u32(&mut out, correlation);
    push_bytes(&mut out, body.as_slice());
    push_bytes(&mut out, h.as_slice());
    assert(out@ =~= response_tail(resp@, correlation));
    Ok(out)
}

/// The headers in some bytes; none where there are no bytes.
pub open spec fn headers_or_none(b: Seq<u8>) -> Result<types::Pairs, Seq<char>> {
    if b.len() == 0 {
        Ok(Seq::empty())
    } else {
        headers::headers_in(b)
    }
}

/// The request in some bytes and its correlation number, or what is wrong with
/// the bytes.
pub open spec fn request_in(b: Seq<u8>) -> Result<
    (types::RequestView, u32),
    error::CrossbarErrorView,
> {
    let uri_len = memory::u16_at(b, 2) as int;
    let body_len = memory::u32_at(b, 4) as int;
    let headers_len = memory::u32_at(b, 8) as int;
    let body_end = MSG_HEADER_SIZE + body_len;
    let uri_end = body_end + uri_len;
    let end = uri_end + headers_len;
    if b.len() < MSG_HEADER_SIZE {
        Err(error::CrossbarErrorView::ShmInvalidRegion("request data too short for header"@))
    } else if types::byte_method(b[0]) is None {
        Err(error::CrossbarErrorView::InvalidMethod(b[0]))
    } else if end > b.len() {
        Err(error::CrossbarErrorView::ShmInvalidRegion("request data lengths exceed block"@))
    } else if !vstd::utf8::valid_utf8(b.subrange(body_end, uri_end)) {
        Err(error::CrossbarErrorView::ShmInvalidRegion("request URI not valid UTF-8"@))
    } else {
        match headers_or_none(b.subrange(uri_end, end)) {
            Err(m) => Err(error::CrossbarErrorView::Io(m)),
            Ok(p) => Ok(
                (
                    types::RequestView {
                        method: types::byte_method(b[0])->0,
                        uri: vstd::utf8::decode_utf8(b.subrange(body_end, uri_end)),
                        headers: p,
                        body: b.subrange(MSG_HEADER_SIZE as int, body_end),
                    },
                    memory::u32_at(b, 12),
                ),
            ),
        }
    }
}

/// The response in some bytes and its correlation number, or what is wrong
/// with the bytes.
pub open spec fn response_in(b: Seq<u8>) -> Result<
    (types::ResponseView, u32),
    error::CrossbarErrorView,
> {
    let body_len = memory::u32_at(b, 4) as int;
    let headers_len = memory::u32_at(b, 8) as int;
    let body_end = MSG_HEADER_SIZE + body_len;
    let end = body_end + headers_len;
    if b.len() < MSG_HEADER_SIZE {
        Err(error::CrossbarErrorView::ShmInvalidRegion("response data too short for header"@))
    } else if end > b.len() {
        Err(error::CrossbarErrorView::ShmInvalidRegion("response data lengths exceed block"@))
    } else {
        match headers_or_none(b.subrange(body_end, end)) {
            Err(m) => Err(error::CrossbarErrorView::Io(m)),
            Ok(p) => Ok(
                (
                    types::ResponseView {
                        status: memory::u16_at(b, 0),
                        headers: p,
                        body: b.subrange(MSG_HEADER_SIZE as int, body_end),
                    },
                    memory::u32_at(b, 12),
                ),
            ),
        }
    }
}

fn headers_of(b: &[u8]) -> (r: Result<StringMap, CrossbarError>)
    ensures
        headers::headers_read(r, headers_or_none(b@)),
{
    if b.len() == 0 {
        Ok(StringMap::new())
    } else {
        deserialize_headers(b)
    }
}

fn invalid(m: &str) -> (r: CrossbarError)
    ensures
        r@ == error::CrossbarErrorView::ShmInvalidRegion(m@),
{
    CrossbarError::ShmInvalidRegion(text::text(m))
}

/// Reads a request.
pub fn decode_request(b: &[u8]) -> (r: Result<(Request, u32), CrossbarError>)
    ensures
        match request_in(b@) {
            Ok((v, k)) => r matches Ok((req, c)) && req@ == v && c == k && req.wf()
                && req.path_params.pairs().len() == 0,
            Err(f) => r matches Err(e) && e@ == f,
        },
{
    let len: usize = b.len();
    if len < MSG_HEADER_SIZE {
        return Err(invalid("request data too short for header"));
    }
    let method: Method = match Method::try_from(b[0]) {
        Ok(m) => m,
        Err(e) => {
            return Err(CrossbarError::InvalidMethod(e));
        },
    };
    let uri_len: u16 = get_u16(b, 2);
    let body_len: u32 = get_u32(b, 4);
    let headers_len: u32 = get_u32(b, 8);
    let correlation: u32 = get_u32(b, 12);
    if MSG_HEADER_SIZE as u64 + body_len as u64 + uri_len as u64 + headers_len as u64 > len as u64 {
        return Err(invalid("request data lengths exceed block"));
    }
    let body_end: usize = MSG_HEADER_SIZE + body_len as usize;
    let uri_end: usize = body_end + uri_len as usize;
    let end: usize = uri_end + headers_len as usize;
    let uri: String = match text_of_bytes(copy_range(b, body_end, uri_end).as_slice()) {
        Some(s) => s,
        None => {
            return Err(invalid("request URI not valid UTF-8"));
        },
    };
    let headers: StringMap = match headers_of(copy_range(b, uri_end, end).as_slice()) {
        Ok(h) => h,
        Err(e) => {
            return Err(e);
        },
    };
    let req: Request = Request::new(method, uri.as_str());
    Ok(
        (
            Request {
                method: req.method,
                uri: req.uri,
                headers,
                body: Body::from_vec(copy_range(b, MSG_HEADER_SIZE, body_end)),
                path_params: req.path_params,
            },
            correlation,
        ),
    )
}

/// Reads a response.
pub fn decode_response(b: &[u8]) -> (r: Result<(Response, u32), CrossbarError>)
    ensures
        match response_in(b@) {
            Ok((v, k)) => r matches Ok((resp, c)) && resp@ == v && c == k && resp.headers.wf(),
            Err(f) => r matches Err(e) && e@ == f,
        },
{
    let len: usize = b.len();
    if len < MSG_HEADER_SIZE {
        return Err(invalid("response data too short for header"));
    }
    let status: u16 = get_u16(b, 0);
    let body_len: u32 = get_u32(b, 4);
    let headers_len: u32 = get_u32(b, 8);
    let correlation: u32 = get_u32(b, 12);
    if MSG_HEADER_SIZE as u64 + body_len as u64 + headers_len as u64 > len as u64 {
        return Err(invalid("response data lengths exceed block"));
    }
    let body_end: usize = MSG_HEADER_SIZE + body_len as usize;
    let end: usize = body_end + headers_len as usize;
    let headers: StringMap = match headers_of(copy_range(b, body_end, end).as_slice()) {
        Ok(h) => h,
        Err(e) => {
            return Err(e);
        },
    };
    Ok(
        (
            Response {
                status,
                headers,
                body: Body::from_vec(copy_range(b, MSG_HEADER_SIZE, body_end)),
            },
            correlation,
        ),
    )
}

/// Headers in a message read back as they were written.
proof fn lemma_wire_headers(p: types::Pairs)
    requires
        headers::fit_fields(p),
        types::distinct_keys(p),
    ensures
        headers_or_none(wire_headers(p)) == Ok::<types::Pairs, Seq<char>>(p),
{
    if p.len() == 0 {
        assert(p =~= Seq::<(Seq<char>, Seq<char>)>::empty());
    } else {
        let h = headers::header_bytes(p);
        assert(h.len() >= 2);
        headers::law_headers_round_trip(p, Seq::empty());
        assert(h + Seq::<u8>::empty() =~= h);
    }
}

/// A message that fits has headers that fit.
proof fn lemma_fits(used: nat, p: types::Pairs, max: nat)
    requires
        message_fault(used, p, max) is None,
        max <= u32::MAX,
    ensures
        headers::fit_fields(p),
        used + wire_headers(p).len() <= max,
{
    if p.len() > 0 {
        headers::law_headers_fit(p, room(max, used));
    }
}

/// A request that fits has no more bytes than there is room for.
pub proof fn lemma_request_len(v: types::RequestView, correlation: u32, max: nat)
    requires
        message_fault(request_used(v), v.headers, max) is None,
        max <= u32::MAX,
    ensures
        request_message(v, correlation).len() <= max,
{
    lemma_fits(request_used(v), v.headers, max);
}

/// A response that fits has no more bytes than there is room for.
pub proof fn lemma_response_len(v: types::ResponseView, correlation: u32, max: nat)
    requires
        message_fault(response_used(v), v.headers, max) is None,
        max <= u32::MAX,
    ensures
        response_len(v) <= max,
        response_tail(v, correlation).len() + 4 == response_len(v),
{
    lemma_fits(response_used(v), v.headers, max);
}

/// The numbers in the head of a request are found there.
proof fn lemma_request_head(v: types::RequestView, correlation: u32)
    requires
        v.body.len() <= u32::MAX,
        types::text_bytes(v.uri).len() <= 65535,
        wire_headers(v.headers).len() <= u32::MAX,
    ensures
        ({
            let h = request_head(v, correlation);
            &&& h.len() == MSG_HEADER_SIZE
            &&& h[0] == types::method_byte(v.method)
            &&& memory::u16_at(h, 2) == types::text_bytes(v.uri).len()
            &&& memory::u32_at(h, 4) == v.body.len()
            &&& memory::u32_at(h, 8) == wire_headers(v.headers).len()
            &&& memory::u32_at(h, 12) == correlation
        }),
{
    let h = request_head(v, correlation);
    let l = memory::le16(headers::field16(types::text_bytes(v.uri).len()));
    assert(h[2] == l[0] && h[3] == l[1]);
    lemma_u32_in(h, 4, v.body.len() as u32);
    lemma_u32_in(h, 8, wire_headers(v.headers).len() as u32);
    lemma_u32_in(h, 12, correlation);
}

proof fn lemma_u32_in(h: Seq<u8>, off: int, v: u32)
    requires
        0 <= off,
        off + 4 <= h.len(),
        forall|i: int| 0 <= i < 4 ==> h[off + i] == #[trigger] memory::le32(v)[i],
    ensures
        memory::u32_at(h, off) == v,
{
    assert(h[off + 0] == memory::le32(v)[0]);
    assert(h[off + 1] == memory::le32(v)[1]);
    assert(h[off + 2] == memory::le32(v)[2]);
    assert(h[off + 3] == memory::le32(v)[3]);
    memory::lemma_u32_of(h, off, v);
}

/// Numbers are read from the start of some bytes as from the whole.
proof fn lemma_prefix(h: Seq<u8>, b: Seq<u8>)
    requires
        h.len() == MSG_HEADER_SIZE,
        b.len() >= MSG_HEADER_SIZE,
        forall|i: int| 0 <= i < MSG_HEADER_SIZE ==> #[trigger] b[i] == h[i],
    ensures
        memory::u16_at(b, 0) == memory::u16_at(h, 0),
        memory::u16_at(b, 2) == memory::u16_at(h, 2),
        memory::u32_at(b, 4) == memory::u32_at(h, 4),
        memory::u32_at(b, 8) == memory::u32_at(h, 8),
        memory::u32_at(b, 12) == memory::u32_at(h, 12),
{
}

/// A request reads back from its message as it was written, with its
/// correlation number, where the URI fits in its length field.
#[verifier::rlimit(40)]
pub proof fn law_request_message_round_trip(v: types::RequestView, correlation: u32, max: nat)
    requires
        message_fault(request_used(v), v.headers, max) is None,
        max <= u32::MAX,
        types::text_bytes(v.uri).len() <= 65535,
        types::distinct_keys(v.headers),
    ensures
        request_in(request_message(v, correlation)) == Ok::<
            (types::RequestView, u32),
            error::CrossbarErrorView,
        >((v, correlation)),
{
    lemma_fits(request_used(v), v.headers, max);
    let h = request_head(v, correlation);
    let b = request_message(v, correlation);
    let u = types::text_bytes(v.uri);
    let w = wire_headers(v.headers);
    let body_end = (MSG_HEADER_SIZE + v.body.len()) as int;
    let uri_end = body_end + u.len();
    lemma_request_head(v, correlation);
    lemma_prefix(h, b);
    assert(b[0] == h[0]);
    types::law_method_bytes(v.method, 0);
    assert(b.subrange(MSG_HEADER_SIZE as int, body_end) =~= v.body);
    assert(b.subrange(body_end, uri_end) =~= u);
    assert(b.subrange(uri_end, (uri_end + w.len()) as int) =~= w);
    types::law_text_body_reads_back(v.uri);
    lemma_wire_headers(v.headers);
}

/// A response reads back from its message as it was written, with its
/// correlation number, whatever the two bytes behind the status are.
pub proof fn law_response_message_round_trip(
    v: types::ResponseView,
    correlation: u32,
    max: nat,
    gap: Seq<u8>,
)
    requires
        message_fault(response_used(v), v.headers, max) is None,
        max <= u32::MAX,
        types::distinct_keys(v.headers),
        gap.len() == 2,
    ensures
        response_in(memory::le16(v.status) + gap + response_tail(v, correlation)) == Ok::<
            (types::ResponseView, u32),
            error::CrossbarErrorView,
        >((v, correlation)),
{
    lemma_fits(response_used(v), v.headers, max);
    let t = response_tail(v, correlation);
    let b = memory::le16(v.status) + gap + t;
    let w = wire_headers(v.headers);
    let body_end = (MSG_HEADER_SIZE + v.body.len()) as int;
    assert(b[0] == memory::le16(v.status)[0] && b[1] == memory::le16(v.status)[1]);
    assert(b.subrange(4, b.len() as int) =~= t);
    lemma_response_numbers(v, correlation, b);
    assert(b.subrange(MSG_HEADER_SIZE as int, body_end) =~= v.body);
    assert(b.subrange(body_end, (body_end + w.len()) as int) =~= w);
    lemma_wire_headers(v.headers);
}

proof fn lemma_response_numbers(v: types::ResponseView, correlation: u32, b: Seq<u8>)
    requires
        v.body.len() <= u32::MAX,
        wire_headers(v.headers).len() <= u32::MAX,
        b.len() == 4 + response_tail(v, correlation).len(),
        b.subrange(4, b.len() as int) == response_tail(v, correlation),
    ensures
        memory::u32_at(b, 4) == v.body.len(),
        memory::u32_at(b, 8) == wire_headers(v.headers).len(),
        memory::u32_at(b, 12) == correlation,
{
    let t = response_tail(v, correlation);
    assert forall|i: int| 0 <= i < t.len() implies b[4 + i] == #[trigger] t[i] by {
        assert(b.subrange(4, b.len() as int)[i] == b[4 + i]);
    }
    let x = memory::le32(v.body.len() as u32);
    let y = memory::le32(wire_headers(v.headers).len() as u32);
    let z = memory::le32(correlation);
    assert forall|i: int| 0 <= i < 4 implies b[4 + i] == #[trigger] x[i] by {
        assert(t[i] == x[i]);
    }
    assert forall|i: int| 0 <= i < 4 implies b[8 + i] == #[trigger] y[i] by {
        assert(t[4 + i] == y[i]);
    }
    assert forall|i: int| 0 <= i < 4 implies b[12 + i] == #[trigger] z[i] by {
        assert(t[8 + i] == z[i]);
    }
    lemma_u32_in(b, 4, v.body.len() as u32);
    lemma_u32_in(b, 8, wire_headers(v.headers).len() as u32);
    lemma_u32_in(b, 12, correlation);
}

} // verus!
