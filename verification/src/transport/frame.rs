//! The wire format of requests and responses on a stream.
//!
//! A request is a head of thirteen bytes (the method, then the lengths of URI,
//! body and headers, 32 bits each) and a payload (URI, headers, body). A
//! response is a head of ten bytes (a 16-bit status, then the lengths of body
//! and headers) and a payload (headers, body).

use crate::error::{self, CrossbarError};
use crate::memory::{self, get_u16, get_u32, push_u16, push_u32};
use crate::text::{self, bytes_of, text_of_bytes};
use crate::transport::headers::{self, deserialize_headers, push_bytes, serialize_headers};
use crate::types::{self, Method, Request, Response, StringMap};
use bytes::Bytes;
use vstd::prelude::*;

verus! {

broadcast use crate::memory::group_memory;

/// The largest payload that is accepted.
pub const MAX_FRAME_SIZE: u64 = 67108864;

/// `bytes::Bytes`, a stretch of bytes that can be split without copying.
#[verifier::external_type_specification]
#[verifier::external_body]
pub struct ExBytes(bytes::Bytes);

/// The bytes that a `bytes::Bytes` shows.
pub uninterp spec fn contents(b: bytes::Bytes) -> Seq<u8>;

/// `Bytes::from` takes over the bytes of a vector as they are.
#[verifier::external_body]
fn bytes_from(v: Vec<u8>) -> (r: Bytes)
    ensures
        contents(r) == v@,
{
    Bytes::from(v)
}

/// `Bytes::split_to` takes off the first `at` bytes and leaves the rest. It
/// panics where there are not as many.
pub assume_specification[ bytes::Bytes::split_to ](b: &mut Bytes, at: usize) -> (r: Bytes)
    requires
        at <= contents(*old(b)).len(),
    ensures
        contents(r) == contents(*old(b)).subrange(0, at as int),
        contents(*final(b)) == contents(*old(b)).subrange(
            at as int,
            contents(*old(b)).len() as int,
        ),
;

/// `Bytes` dereferences to the bytes that it shows.
#[verifier::external_body]
fn bytes_shown(b: &Bytes) -> (r: &[u8])
    ensures
        r@ == contents(*b),
{
    b.as_ref()
}

/// A length as its 32-bit field holds it.
pub open spec fn field32(n: nat) -> u32 {
    (n % 0x1_0000_0000) as u32
}

/// The head of a request.
#[derive(Debug, Clone, Copy, PartialEq, Eq)]
pub struct RequestHead {
    /// The method.
    pub method: Method,
    /// Length of the URI.
    pub uri_len: u32,
    /// Length of the body.
    pub body_len: u32,
    /// Length of the headers.
    pub headers_len: u32,
}

impl RequestHead {
    /// Length of the payload.
    pub open spec fn total(&self) -> int {
        self.uri_len + self.headers_len + self.body_len
    }

    /// Length of the payload.
    pub fn payload_len(&self) -> (r: u64)
        ensures
            r == self.total(),
    {
        self.uri_len as u64 + self.headers_len as u64 + self.body_len as u64
    }
}

/// The head of a response.
#[derive(Debug, Clone, Copy, PartialEq, Eq)]
pub struct ResponseHead {
    /// The status.
    pub status: u16,
    /// Length of the body.
    pub body_len: u32,
    /// Length of the headers.
    pub headers_len: u32,
}

impl ResponseHead {
    /// Length of the payload.
    pub open spec fn total(&self) -> int {
        self.headers_len + self.body_len
    }

    /// Length of the payload.
    pub fn payload_len(&self) -> (r: u64)
        ensures
            r == self.total(),
    {
        self.headers_len as u64 + self.body_len as u64
    }
}

/// The head of a request with the given lengths.
pub open spec fn request_head_bytes(
    method: Method,
    uri_len: nat,
    body_len: nat,
    headers_len: nat,
) -> Seq<u8> {
    seq![types::method_byte(method)] + memory::le32(field32(uri_len)) + memory::le32(
        field32(body_len),
    ) + memory::le32(field32(headers_len))
}

/// The payload of a request.
pub open spec fn request_payload(v: types::RequestView) -> Seq<u8> {
    types::text_bytes(v.uri) + headers::header_bytes(v.headers) + v.body
}

/// The bytes of a request.
pub open spec fn request_frame(v: types::RequestView) -> Seq<u8> {
    request_head_bytes(
        v.method,
        types::text_bytes(v.uri).len(),
        v.body.len(),
        headers::header_bytes(v.headers).len(),
    ) + request_payload(v)
}

/// The head of a response with the given lengths.
pub open spec fn response_head_bytes(status: u16, body_len: nat, headers_len: nat) -> Seq<u8> {
    memory::le16(status) + memory::le32(field32(body_len)) + memory::le32(field32(headers_len))
}

/// The payload of a response.
pub open spec fn response_payload(v: types::ResponseView) -> Seq<u8> {
    headers::header_bytes(v.headers) + v.body
}

/// The bytes of a response.
pub open spec fn response_frame(v: types::ResponseView) -> Seq<u8> {
    response_head_bytes(
        v.status,
        v.body.len(),
        headers::header_bytes(v.headers).len(),
    ) + response_payload(v)
}

fn push_len(out: &mut Vec<u8>, n: usize)
    ensures
        final(out)@ == old(out)@ + memory::le32(field32(n as nat)),
{
    push_u32(out, (n as u64 % 0x1_0000_0000) as u32);
}

/// The bytes of a request. A length that is too large for its field loses its
/// upper bits.
pub fn write_request(req: &Request) -> (r: Vec<u8>)
    ensures
        r@ == request_frame(req@),
{
    let uri: &[u8] = bytes_of(req.uri.raw());
    let headers_data: Vec<u8> = serialize_headers(&req.headers);
    let body: Vec<u8> = req.body.to_vec();
    let mut out: Vec<u8> = Vec::new();
    out.push(u8::from(req.method));
    push_len(&mut out, uri.len());
    push_len(&mut out, body.len());
    push_len(&mut out, headers_data.len());
    assert(out@ =~= request_head_bytes(req.method, uri@.len(), body@.len(), headers_data@.len()));
    push_bytes(&mut out, uri);
    push_bytes(&mut out, headers_data.as_slice());
    push_bytes(&mut out, body.as_slice());
    assert(out@ =~= request_frame(req@));
    out
}

/// The bytes of a response. A length that is too large for its field loses its
/// upper bits.
pub fn write_response(resp: &Response) -> (r: Vec<u8>)
    ensures
        r@ == response_frame(resp@),
{
    let headers_data: Vec<u8> = serialize_headers(&resp.headers);
    let body: Vec<u8> = resp.body.to_vec();
    let mut out: Vec<u8> = Vec::new();
    push_u16(&mut out, resp.status);
    push_len(&mut out, body.len());
    push_len(&mut out, headers_data.len());
    assert(out@ =~= response_head_bytes(resp.status, body@.len(), headers_data@.len()));
    push_bytes(&mut out, headers_data.as_slice());
    push_bytes(&mut out, body.as_slice());
    assert(out@ =~= response_frame(resp@));
    out
}

/// The head of a request in thirteen bytes, or what is wrong with it.
pub open spec fn request_head_in(h: Seq<u8>) -> Result<RequestHead, error::CrossbarErrorView> {
    match types::byte_method(h[0]) {
        None => Err(error::CrossbarErrorView::InvalidMethod(h[0])),
        Some(method) => {
            let head = RequestHead {
                method,
                uri_len: memory::u32_at(h, 1),
                body_len: memory::u32_at(h, 5),
                headers_len: memory::u32_at(h, 9),
            };
            if head.total() > MAX_FRAME_SIZE {
                Err(
                    error::CrossbarErrorView::FrameTooLarge {
                        size: head.total() as u64,
                        max: MAX_FRAME_SIZE,
                    },
                )
            } else {
                Ok(head)
            }
        },
    }
}

/// The head of a response in ten bytes, or what is wrong with it.
pub open spec fn response_head_in(h: Seq<u8>) -> Result<ResponseHead, error::CrossbarErrorView> {
    let head = ResponseHead {
        status: memory::u16_at(h, 0),
        body_len: memory::u32_at(h, 2),
        headers_len: memory::u32_at(h, 6),
    };
    if head.total() > MAX_FRAME_SIZE {
        Err(
            error::CrossbarErrorView::FrameTooLarge {
                size: head.total() as u64,
                max: MAX_FRAME_SIZE,
            },
        )
    } else {
        Ok(head)
    }
}

/// Reads the head of a request. Refuses bytes that are no method, and payloads
/// over the limit.
pub fn read_request_head(h: &[u8]) -> (r: Result<RequestHead, CrossbarError>)
    requires
        h@.len() == 13,
    ensures
        match request_head_in(h@) {
            Ok(head) => r == Ok::<RequestHead, CrossbarError>(head),
            Err(f) => r matches Err(e) && e@ == f,
        },
{
    let method: Method = match Method::try_from(h[0]) {
        Ok(m) => m,
        Err(b) => {
            return Err(CrossbarError::InvalidMethod(b));
        },
    };
    let head: RequestHead = RequestHead {
        method,
        uri_len: get_u32(h, 1),
        body_len: get_u32(h, 5),
        headers_len: get_u32(h, 9),
    };
    let size: u64 = head.payload_len();
    if size > MAX_FRAME_SIZE {
        return Err(CrossbarError::FrameTooLarge { size, max: MAX_FRAME_SIZE });
    }
    Ok(head)
}

/// Reads the head of a response. Refuses payloads over the limit.
pub fn read_response_head(h: &[u8]) -> (r: Result<ResponseHead, CrossbarError>)
    requires
        h@.len() == 10,
    ensures
        match response_head_in(h@) {
            Ok(head) => r == Ok::<ResponseHead, CrossbarError>(head),
            Err(f) => r matches Err(e) && e@ == f,
        },
{
    let head: ResponseHead = ResponseHead {
        status: get_u16(h, 0),
        body_len: get_u32(h, 2),
        headers_len: get_u32(h, 6),
    };
    let size: u64 = head.payload_len();
    if size > MAX_FRAME_SIZE {
        return Err(CrossbarError::FrameTooLarge { size, max: MAX_FRAME_SIZE });
    }
    Ok(head)
}

/// The request of a head and a payload, or what is wrong with the payload.
pub open spec fn request_in(head: RequestHead, b: Seq<u8>) -> Result<types::RequestView, Seq<char>> {
    let u = head.uri_len as int;
    let e = u + head.headers_len;
    if !vstd::utf8::valid_utf8(b.subrange(0, u)) {
        Err("URI is not valid UTF-8"@)
    } else {
        match headers::headers_in(b.subrange(u, e)) {
            Err(m) => Err(m),
            Ok(p) => Ok(
                types::RequestView {
                    method: head.method,
                    uri: vstd::utf8::decode_utf8(b.subrange(0, u)),
                    headers: p,
                    body: b.subrange(e, b.len() as int),
                },
            ),
        }
    }
}

/// The response of a head and a payload, or what is wrong with the payload.
pub open spec fn response_in(head: ResponseHead, b: Seq<u8>) -> Result<
    types::ResponseView,
    Seq<char>,
> {
    let e = head.headers_len as int;
    match headers::headers_in(b.subrange(0, e)) {
        Err(m) => Err(m),
        Ok(p) => Ok(
            types::ResponseView {
                status: head.status,
                headers: p,
                body: b.subrange(e, b.len() as int),
            },
        ),
    }
}

/// Reads the request of a head and its payload.
pub fn read_request(head: RequestHead, payload: Vec<u8>) -> (r: Result<Request, CrossbarError>)
    requires
        payload@.len() == head.total(),
    ensures
        match request_in(head, payload@) {
            Ok(v) => r matches Ok(req) && req@ == v && req.wf() && req.path_params.pairs().len()
                == 0,
            Err(m) => r matches Err(e) && e@ == error::CrossbarErrorView::Io(m),
        },
{
    let n: usize = payload.len();
    let ghost b = payload@;
    let mut frozen: Bytes = bytes_from(payload);
    let uri_bytes: Bytes = frozen.split_to(head.uri_len as usize);
    let headers_bytes: Bytes = frozen.split_to(head.headers_len as usize);
    proof {
        let u = head.uri_len as int;
        let e = u + head.headers_len;
        assert(contents(headers_bytes) =~= b.subrange(u, e));
        assert(contents(frozen) =~= b.subrange(e, b.len() as int));
    }
    let uri: String = match text_of_bytes(bytes_shown(&uri_bytes)) {
        Some(s) => s,
        None => {
            return Err(CrossbarError::Io(text::text("URI is not valid UTF-8")));
        },
    };
    let headers: StringMap = match deserialize_headers(bytes_shown(&headers_bytes)) {
        Ok(h) => h,
        Err(e) => {
            return Err(e);
        },
    };
    let req: Request = Request::new(head.method, uri.as_str()).with_body(bytes_shown(&frozen));
    Ok(
        Request {
            method: req.method,
            uri: req.uri,
            headers,
            body: req.body,
            path_params: req.path_params,
        },
    )
}

/// Reads the response of a head and its payload.
pub fn read_response(head: ResponseHead, payload: Vec<u8>) -> (r: Result<Response, CrossbarError>)
    requires
        payload@.len() == head.total(),
    ensures
        match response_in(head, payload@) {
            Ok(v) => r matches Ok(resp) && resp@ == v && resp.headers.wf(),
            Err(m) => r matches Err(e) && e@ == error::CrossbarErrorView::Io(m),
        },
{
    let n: usize = payload.len();
    let mut frozen: Bytes = bytes_from(payload);
    let headers_bytes: Bytes = frozen.split_to(head.headers_len as usize);
    let headers: StringMap = match deserialize_headers(bytes_shown(&headers_bytes)) {
        Ok(h) => h,
        Err(e) => {
            return Err(e);
        },
    };
    let resp: Response = Response::with_status(head.status).with_body(bytes_shown(&frozen));
    Ok(Response { status: resp.status, headers, body: resp.body })
}

/// A request reads back from its bytes as it was written, where its lengths
/// fit in their fields and its payload is within the limit.
pub proof fn law_request_round_trip(v: types::RequestView)
    requires
        headers::fit_fields(v.headers),
        types::distinct_keys(v.headers),
        request_payload(v).len() <= MAX_FRAME_SIZE,
    ensures
        ({
            let f = request_frame(v);
            &&& f.len() == 13 + request_payload(v).len()
            &&& request_head_in(f.subrange(0, 13)) matches Ok(head)
            &&& head.total() == f.len() - 13
            &&& request_in(head, f.subrange(13, f.len() as int)) == Ok::<
                types::RequestView,
                Seq<char>,
            >(v)
        }),
{
    let f = request_frame(v);
    let h = f.subrange(0, 13);
    let b = f.subrange(13, f.len() as int);
    let u = types::text_bytes(v.uri);
    let d = headers::header_bytes(v.headers);
    assert(b =~= request_payload(v));
    lemma_request_head(v.method, u.len(), v.body.len(), d.len());
    assert(h =~= request_head_bytes(v.method, u.len(), v.body.len(), d.len()));
    types::law_method_bytes(v.method, 0);
    types::law_text_body_reads_back(v.uri);
    assert(b.subrange(0, u.len() as int) =~= u);
    assert(b.subrange(u.len() as int, (u.len() + d.len()) as int) =~= d);
    assert(b.subrange((u.len() + d.len()) as int, b.len() as int) =~= v.body);
    headers::law_headers_round_trip(v.headers, Seq::empty());
    assert(d + Seq::<u8>::empty() =~= d);
}

#[verifier::rlimit(40)]
proof fn lemma_request_head(method: Method, uri_len: nat, body_len: nat, headers_len: nat)
    requires
        uri_len <= MAX_FRAME_SIZE,
        body_len <= MAX_FRAME_SIZE,
        headers_len <= MAX_FRAME_SIZE,
    ensures
        ({
            let h = request_head_bytes(method, uri_len, body_len, headers_len);
            &&& h.len() == 13
            &&& h[0] == types::method_byte(method)
            &&& memory::u32_at(h, 1) == uri_len
            &&& memory::u32_at(h, 5) == body_len
            &&& memory::u32_at(h, 9) == headers_len
        }),
{
    let h = request_head_bytes(method, uri_len, body_len, headers_len);
    let x = memory::le32(field32(uri_len));
    let y = memory::le32(field32(body_len));
    let z = memory::le32(field32(headers_len));
    assert forall|i: int| 0 <= i < 4 implies h[1 + i] == #[trigger] x[i] by {}
    assert forall|i: int| 0 <= i < 4 implies h[5 + i] == #[trigger] y[i] by {}
    assert forall|i: int| 0 <= i < 4 implies h[9 + i] == #[trigger] z[i] by {}
    lemma_u32_in(h, 1, field32(uri_len));
    lemma_u32_in(h, 5, field32(body_len));
    lemma_u32_in(h, 9, field32(headers_len));
}

proof fn lemma_u32_in(h: Seq<u8>, off: int, v: u32)
    requires
        0 <= off,
        off + 4 <= h.len(),
        forall|i: int| 0 <= i < 4 ==> h[off + i] == #[trigger] memory::le32(v)[i],
    ensures
        memory::u32_at(h, off) == v,
{
    assert(h[off + 0] == memory::le32(v)[0]);
    assert(h[off + 1] == memory::le32(v)[1]);
    assert(h[off + 2] == memory::le32(v)[2]);
    assert(h[off + 3] == memory::le32(v)[3]);
    memory::lemma_u32_of(h, off, v);
}

proof fn lemma_response_head(status: u16, body_len: nat, headers_len: nat)
    requires
        body_len <= MAX_FRAME_SIZE,
        headers_len <= MAX_FRAME_SIZE,
    ensures
        ({
            let h = response_head_bytes(status, body_len, headers_len);
            &&& h.len() == 10
            &&& memory::u16_at(h, 0) == status
            &&& memory::u32_at(h, 2) == body_len
            &&& memory::u32_at(h, 6) == headers_len
        }),
{
    let h = response_head_bytes(status, body_len, headers_len);
    assert(h[0] == memory::le16(status)[0] && h[1] == memory::le16(status)[1]);
    lemma_u32_in(h, 2, field32(body_len));
    lemma_u32_in(h, 6, field32(headers_len));
}

/// A response reads back from its bytes as it was written, where its lengths
/// fit in their fields and its payload is within the limit.
pub proof fn law_response_round_trip(v: types::ResponseView)
    requires
        headers::fit_fields(v.headers),
        types::distinct_keys(v.headers),
        response_payload(v).len() <= MAX_FRAME_SIZE,
    ensures
        ({
            let f = response_frame(v);
            &&& f.len() == 10 + response_payload(v).len()
            &&& response_head_in(f.subrange(0, 10)) matches Ok(head)
            &&& head.total() == f.len() - 10
            &&& response_in(head, f.subrange(10, f.len() as int)) == Ok::<
                types::ResponseView,
                Seq<char>,
            >(v)
        }),
{
    let f = response_frame(v);
    let h = f.subrange(0, 10);
    let b = f.subrange(10, f.len() as int);
    let d = headers::header_bytes(v.headers);
    assert(b =~= response_payload(v));
    lemma_response_head(v.status, v.body.len(), d.len());
    assert(h =~= response_head_bytes(v.status, v.body.len(), d.len()));
    assert(b.subrange(0, d.len() as int) =~= d);
    assert(b.subrange(d.len() as int, b.len() as int) =~= v.body);
    headers::law_headers_round_trip(v.headers, Seq::empty());
    assert(d + Seq::<u8>::empty() =~= d);
}

} // verus!
