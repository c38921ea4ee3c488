//! Requests and responses in the blocks of a segment.
//!
//! A block holds the body of a request, then its URI and its headers; or the
//! body of a response and then its headers. The slot holds the lengths.

use crate::error::{self, CrossbarError};
use crate::memory::{self, copy_range, Access, Accesses, SharedMemory};
use crate::protocol::pool::{self, PoolLayout};
use crate::text::{self, add_number, add_text, bytes_of, text_of_bytes};
use crate::transport::frame;
use crate::transport::headers::{self, deserialize_headers, push_bytes, serialize_headers_into};
use crate::transport::shm::region::{
    self, ShmRegion, S_BODY_LEN, S_HEADERS_LEN, S_METHOD, S_REQUEST_BLOCK, S_RESPONSE_BLOCK,
    S_RESPONSE_BODY_LEN, S_RESPONSE_HEADERS_LEN, S_STATUS, S_URI_LEN,
};
use crate::types::{self, Body, Method, Request, Response, ShmBodyGuard, StringMap};
use vstd::prelude::*;

verus! {

broadcast use crate::memory::group_memory;

/// Why a request does not fit in a block of `max` bytes, behind a body that is
/// there already.
pub open spec fn tail_fault(
    body_len: nat,
    uri: Seq<char>,
    p: types::Pairs,
    max: nat,
) -> Option<error::CrossbarErrorView> {
    let end = body_len + types::text_bytes(uri).len();
    if end > max {
        Some(error::CrossbarErrorView::ShmMessageTooLarge { size: end as u64, max: max as u64 })
    } else {
        headers::headers_fault(p, (max - end) as nat)
    }
}

/// Why a request does not fit in a block of `max` bytes.
pub open spec fn request_fault(v: types::RequestView, max: nat) -> Option<
    error::CrossbarErrorView,
> {
    if v.body.len() > max {
        Some(
            error::CrossbarErrorView::ShmMessageTooLarge {
                size: v.body.len() as u64,
                max: max as u64,
            },
        )
    } else {
        tail_fault(v.body.len(), v.uri, v.headers, max)
    }
}

/// URI and headers as a block holds them.
pub open spec fn tail_bytes(uri: Seq<char>, p: types::Pairs) -> Seq<u8> {
    types::text_bytes(uri) + headers::header_bytes(p)
}

/// What is written of URI and headers into a block of `max` bytes, behind a body
/// that is there already: all of it, or what stands in front of the first part
/// that does not fit.
pub open spec fn tail_written(body_len: nat, uri: Seq<char>, p: types::Pairs, max: nat) -> Seq<u8> {
    let end = body_len + types::text_bytes(uri).len();
    if end > max {
        Seq::empty()
    } else {
        types::text_bytes(uri) + headers::headers_written(p, (max - end) as nat)
    }
}

/// The segment after a request was refused because it does not fit: the parts in
/// front of the first one that does not are in the block.
pub open spec fn after_refused_request(
    c: region::ShmConfig,
    m: Seq<u8>,
    block: u32,
    v: types::RequestView,
) -> Seq<u8> {
    let b = region::pool_of(c).block(block as int);
    let max = c.block_size as nat;
    if v.body.len() > max {
        m
    } else {
        memory::put(
            memory::put(m, b, v.body),
            b + v.body.len(),
            tail_written(v.body.len(), v.uri, v.headers, max),
        )
    }
}

/// The segment with the data of a request in its slot.
pub open spec fn with_request_meta(
    m: Seq<u8>,
    slot: int,
    block: u32,
    method: Method,
    uri_len: nat,
    body_len: nat,
    headers_len: nat,
) -> Seq<u8> {
    let s = region::slot_off(slot);
    let m = memory::put(m, s + S_METHOD, seq![types::method_byte(method)]);
    let m = memory::put32(m, s + S_URI_LEN, uri_len as u32);
    let m = memory::put32(m, s + S_BODY_LEN, body_len as u32);
    let m = memory::put32(m, s + S_HEADERS_LEN, headers_len as u32);
    memory::put32(m, s + S_REQUEST_BLOCK, block)
}

/// The block of a message that was read goes back to the pool.
pub open spec fn lets_go<M: SharedMemory>(c: region::ShmConfig, before: M, after: M) -> bool {
    exists|block: u32|
        block < c.block_count && #[trigger] region::pool_of(c).gave(before, after, block)
}

/// What writing the data of a request into its slot stores.
pub open spec fn request_meta_stores(
    slot: int,
    block: u32,
    method: Method,
    uri_len: nat,
    body_len: nat,
    headers_len: nat,
) -> Accesses {
    let s = region::slot_off(slot);
    seq![
        Access::Bytes { off: s + S_METHOD, data: seq![types::method_byte(method)] },
        Access::Word32 { off: s + S_URI_LEN, v: uri_len as u32 },
        Access::Word32 { off: s + S_BODY_LEN, v: body_len as u32 },
        Access::Word32 { off: s + S_HEADERS_LEN, v: headers_len as u32 },
        Access::Word32 { off: s + S_REQUEST_BLOCK, v: block },
    ]
}

/// What writing a request into a block stores, as far as it fits.
pub open spec fn request_block_stores(
    c: region::ShmConfig,
    block: u32,
    v: types::RequestView,
) -> Accesses {
    let b = region::pool_of(c).block(block as int);
    let max = c.block_size as nat;
    if v.body.len() > max {
        Seq::empty()
    } else {
        seq![
            Access::Bytes { off: b, data: v.body },
            Access::Bytes {
                off: b + v.body.len(),
                data: tail_written(v.body.len(), v.uri, v.headers, max),
            },
        ]
    }
}

/// What writing the bytes behind a body stores; if there are none, nothing is stored.
pub open spec fn tail_stores(off: int, tail: Seq<u8>) -> Accesses {
    if tail.len() == 0 {
        Seq::empty()
    } else {
        seq![Access::Bytes { off, data: tail }]
    }
}

/// What writing a request stores that fits: the block, and then the slot.
pub open spec fn request_stores(
    c: region::ShmConfig,
    slot: int,
    block: u32,
    v: types::RequestView,
) -> Accesses {
    request_block_stores(c, block, v) + request_meta_stores(
        slot,
        block,
        v.method,
        types::text_bytes(v.uri).len(),
        v.body.len(),
        headers::header_bytes(v.headers).len(),
    )
}

/// The segment after a request was written, behind a body of `body_len` bytes
/// that is in the block already.
pub open spec fn after_request_tail(
    c: region::ShmConfig,
    m: Seq<u8>,
    slot: int,
    block: u32,
    body_len: nat,
    method: Method,
    uri: Seq<char>,
    p: types::Pairs,
) -> Seq<u8> {
    let b = region::pool_of(c).block(block as int);
    with_request_meta(
        memory::put(m, b + body_len, tail_bytes(uri, p)),
        slot,
        block,
        method,
        types::text_bytes(uri).len(),
        body_len,
        headers::header_bytes(p).len(),
    )
}

/// The segment after a request was written.
pub open spec fn after_request(
    c: region::ShmConfig,
    m: Seq<u8>,
    slot: int,
    block: u32,
    v: types::RequestView,
) -> Seq<u8> {
    let b = region::pool_of(c).block(block as int);
    after_request_tail(
        c,
        memory::put(m, b, v.body),
        slot,
        block,
        v.body.len(),
        v.method,
        v.uri,
        v.headers,
    )
}

/// The data of a request in its slot.
#[derive(Debug, Clone, Copy, PartialEq, Eq)]
pub struct RequestMeta {
    /// The method byte.
    pub method: u8,
    /// Length of the URI.
    pub uri_len: u32,
    /// Length of the body.
    pub body_len: u32,
    /// Length of the headers.
    pub headers_len: u32,
}

/// The data of a request in a slot.
pub open spec fn request_meta(m: Seq<u8>, slot: int) -> RequestMeta {
    let s = region::slot_off(slot);
    RequestMeta {
        method: m[s + S_METHOD],
        uri_len: memory::u32_at(m, s + S_URI_LEN),
        body_len: memory::u32_at(m, s + S_BODY_LEN),
        headers_len: memory::u32_at(m, s + S_HEADERS_LEN),
    }
}

/// What is wrong with the data of a request in its slot, for blocks of `max`
/// bytes.
pub open spec fn request_meta_fault(meta: RequestMeta, max: nat) -> Option<
    error::CrossbarErrorView,
> {
    if types::byte_method(meta.method) is None {
        Some(error::CrossbarErrorView::InvalidMethod(meta.method))
    } else if meta.uri_len + meta.headers_len + meta.body_len > max {
        Some(
            error::CrossbarErrorView::ShmInvalidRegion(
                "request payload ("@ + text::decimal(meta.uri_len as nat) + "+"@ + text::decimal(
                    meta.headers_len as nat,
                ) + "+"@ + text::decimal(meta.body_len as nat) + ") exceeds block size ("@
                    + text::decimal(max) + ")"@,
            ),
        )
    } else {
        None
    }
}

/// The headers in some bytes; none where there are no bytes.
pub open spec fn headers_or_none(b: Seq<u8>) -> Result<types::Pairs, Seq<char>> {
    if b.len() == 0 {
        Ok(Seq::empty())
    } else {
        headers::headers_in(b)
    }
}

/// The request in a block, or what is wrong with it.
pub open spec fn request_in_block(meta: RequestMeta, b: Seq<u8>) -> Result<
    types::RequestView,
    error::CrossbarErrorView,
> {
    let body_end = meta.body_len as int;
    let uri_end = body_end + meta.uri_len;
    let end = uri_end + meta.headers_len;
    match request_meta_fault(meta, b.len()) {
        Some(f) => Err(f),
        None => if !vstd::utf8::valid_utf8(b.subrange(body_end, uri_end)) {
            Err(error::CrossbarErrorView::Io("URI not valid UTF-8"@))
        } else {
            match headers_or_none(b.subrange(uri_end, end)) {
                Err(m) => Err(error::CrossbarErrorView::Io(m)),
                Ok(p) => Ok(
                    types::RequestView {
                        method: types::byte_method(meta.method)->0,
                        uri: vstd::utf8::decode_utf8(b.subrange(body_end, uri_end)),
                        headers: p,
                        body: b.subrange(0, body_end),
                    },
                ),
            }
        },
    }
}

/// The error for a slot that names a block outside of the pool.
pub open spec fn block_fault(block: u32, count: u32) -> error::CrossbarErrorView {
    error::CrossbarErrorView::ShmInvalidRegion(
        "block index "@ + text::decimal(block as nat) + " out of bounds (max "@ + text::decimal(
            count as nat,
        ) + ")"@,
    )
}

/// The request that a slot names, or what is wrong with it.
pub open spec fn request_at(c: region::ShmConfig, m: Seq<u8>, slot: int) -> Result<
    types::RequestView,
    error::CrossbarErrorView,
> {
    let block = memory::u32_at(m, region::slot_off(slot) + S_REQUEST_BLOCK);
    if block >= c.block_count {
        Err(block_fault(block, c.block_count))
    } else {
        request_in_block(
            request_meta(m, slot),
            memory::bytes_at(m, region::pool_of(c).block(block as int), c.block_size as int),
        )
    }
}

/// Whether the block of a message goes back to the pool as soon as the message
/// is read: it does unless the message has a body, which then holds on to it.
pub open spec fn after_message(
    c: region::ShmConfig,
    m: Seq<u8>,
    block: u32,
    keeps_block: bool,
) -> Seq<u8> {
    if keeps_block {
        m
    } else {
        region::pool_of(c).after_free(m, block)
    }
}

/// The body holds on to a block where it has bytes.
pub open spec fn body_in(body: Body, block: u32) -> bool {
    match body {
        Body::Empty => true,
        Body::Owned(_) => false,
        Body::Mmap(g) => g.block_idx == block && g.offset == 0 && g.data@.len() > 0,
    }
}

fn body_of(block: u32, data: Vec<u8>) -> (r: Body)
    ensures
        r@ == data@,
        body_in(r, block),
{
    if data.len() == 0 {
        assert(data@ =~= Seq::<u8>::empty());
        Body::Empty
    } else {
        Body::Mmap(ShmBodyGuard { block_idx: block, offset: 0, data })
    }
}

fn headers_of(b: &[u8]) -> (r: Result<StringMap, CrossbarError>)
    ensures
        headers::headers_read(r, headers_or_none(b@)),
{
    if b.len() == 0 {
        Ok(StringMap::new())
    } else {
        deserialize_headers(b)
    }
}

/// Reads the request in a block.
pub fn parse_request(meta: RequestMeta, block: u32, b: &[u8]) -> (r: Result<
    Request,
    CrossbarError,
>)
    ensures
        match request_in_block(meta, b@) {
            Ok(v) => r matches Ok(req) && req@ == v && req.wf() && body_in(req.body, block)
                && req.path_params.pairs().len() == 0,
            Err(f) => r matches Err(e) && e@ == f,
        },
{
    let method: Method = match Method::try_from(meta.method) {
        Ok(m) => m,
        Err(e) => {
            return Err(CrossbarError::InvalidMethod(e));
        },
    };
    let max: usize = b.len();
    let total: u64 = meta.uri_len as u64 + meta.headers_len as u64 + meta.body_len as u64;
    if total > max as u64 {
        let s: String = add_number(text::text("request payload ("), meta.uri_len as u64);
        let s: String = add_number(add_text(s, "+"), meta.headers_len as u64);
        let s: String = add_number(add_text(s, "+"), meta.body_len as u64);
        let s: String = add_number(add_text(s, ") exceeds block size ("), max as u64);
        return Err(CrossbarError::ShmInvalidRegion(add_text(s, ")")));
    }
    let body_end: usize = meta.body_len as usize;
    let uri_end: usize = body_end + meta.uri_len as usize;
    let end: usize = uri_end + meta.headers_len as usize;
    let uri: String = match text_of_bytes(copy_range(b, body_end, uri_end).as_slice()) {
        Some(s) => s,
        None => {
            return Err(CrossbarError::Io(text::text("URI not valid UTF-8")));
        },
    };
    let headers: StringMap = match headers_of(copy_range(b, uri_end, end).as_slice()) {
        Ok(h) => h,
        Err(e) => {
            return Err(e);
        },
    };
    let req: Request = Request::new(method, uri.as_str());
    Ok(
        Request {
            method: req.method,
            uri: req.uri,
            headers,
            body: body_of(block, copy_range(b, 0, body_end)),
            path_params: req.path_params,
        },
    )
}

/// The body of the answer where a response does not fit.
pub open spec fn too_large_body() -> Seq<u8> {
    types::text_bytes("response too large for shm block"@)
}

/// Why a response does not fit in a block of `max` bytes.
pub open spec fn response_fault(v: types::ResponseView, max: nat) -> Option<
    error::CrossbarErrorView,
> {
    if v.body.len() > max {
        Some(
            error::CrossbarErrorView::ShmMessageTooLarge {
                size: v.body.len() as u64,
                max: max as u64,
            },
        )
    } else {
        headers::headers_fault(v.headers, (max - v.body.len()) as nat)
    }
}

/// The response that is written in place of one: itself where it fits, and a
/// report that it does not otherwise.
pub open spec fn stored_response(v: types::ResponseView, max: nat) -> types::ResponseView {
    match response_fault(v, max) {
        None => v,
        Some(_) => types::plain_response(500, too_large_body()),
    }
}

/// The segment after a response turned out not to fit: the parts in front of the
/// first one that does not are in the block.
pub open spec fn after_refused_response(
    c: region::ShmConfig,
    m: Seq<u8>,
    block: u32,
    v: types::ResponseView,
) -> Seq<u8> {
    let max = c.block_size as nat;
    if response_fault(v, max) is None || v.body.len() > max {
        m
    } else {
        memory::put(
            m,
            region::pool_of(c).block(block as int),
            v.body + headers::headers_written(v.headers, (max - v.body.len()) as nat),
        )
    }
}

/// The segment with the data of a response in its slot.
pub open spec fn with_response_meta(
    m: Seq<u8>,
    slot: int,
    block: u32,
    status: u16,
    headers_len: u32,
    body_len: u32,
) -> Seq<u8> {
    let s = region::slot_off(slot);
    let m = memory::put32(m, s + S_RESPONSE_BLOCK, block);
    let m = memory::put(m, s + S_STATUS, memory::le16(status));
    let m = memory::put32(m, s + S_RESPONSE_HEADERS_LEN, headers_len);
    memory::put32(m, s + S_RESPONSE_BODY_LEN, body_len)
}

/// What writing the data of a response into its slot stores.
pub open spec fn response_meta_stores(
    slot: int,
    block: u32,
    status: u16,
    headers_len: u32,
    body_len: u32,
) -> Accesses {
    let s = region::slot_off(slot);
    seq![
        Access::Word32 { off: s + S_RESPONSE_BLOCK, v: block },
        Access::Bytes { off: s + S_STATUS, data: memory::le16(status) },
        Access::Word32 { off: s + S_RESPONSE_HEADERS_LEN, v: headers_len },
        Access::Word32 { off: s + S_RESPONSE_BODY_LEN, v: body_len },
    ]
}

/// What of a response is written into a block before it turns out not to fit.
pub open spec fn refused_response_stores(
    c: region::ShmConfig,
    block: u32,
    v: types::ResponseView,
) -> Accesses {
    let max = c.block_size as nat;
    if response_fault(v, max) is None || v.body.len() > max {
        Seq::empty()
    } else {
        seq![
            Access::Bytes {
                off: region::pool_of(c).block(block as int),
                data: v.body + headers::headers_written(v.headers, (max - v.body.len()) as nat),
            },
        ]
    }
}

/// What writing a response stores, or a report in its place: the block, and then
/// the slot.
pub open spec fn response_stores(
    c: region::ShmConfig,
    slot: int,
    block: u32,
    v: types::ResponseView,
) -> Accesses {
    let w = stored_response(v, c.block_size as nat);
    refused_response_stores(c, block, v) + seq![
        Access::Bytes {
            off: region::pool_of(c).block(block as int),
            data: w.body + headers::header_bytes(w.headers),
        },
    ] + response_meta_stores(
        slot,
        block,
        w.status,
        headers::header_bytes(w.headers).len() as u32,
        w.body.len() as u32,
    )
}

/// The segment after a response that fits was written.
pub open spec fn after_fitting_response(
    c: region::ShmConfig,
    m: Seq<u8>,
    slot: int,
    block: u32,
    v: types::ResponseView,
) -> Seq<u8> {
    let h = headers::header_bytes(v.headers);
    with_response_meta(
        memory::put(m, region::pool_of(c).block(block as int), v.body + h),
        slot,
        block,
        v.status,
        h.len() as u32,
        v.body.len() as u32,
    )
}

/// The segment after a response was written, or a report in its place, over what
/// was written of it before it turned out not to fit.
pub open spec fn after_response(
    c: region::ShmConfig,
    m: Seq<u8>,
    slot: int,
    block: u32,
    v: types::ResponseView,
) -> Seq<u8> {
    after_fitting_response(
        c,
        after_refused_response(c, m, block, v),
        slot,
        block,
        stored_response(v, c.block_size as nat),
    )
}

/// The bytes of headers that are written behind a body of `body_len` bytes: where
/// they do not fit, those in front of the first one that does not.
pub open spec fn response_tail(body_len: nat, p: types::Pairs, max: nat) -> Seq<u8> {
    if body_len < max {
        headers::headers_written(p, (max - body_len) as nat)
    } else {
        Seq::empty()
    }
}

/// What writing the headers of a response behind a body stores; without room nothing is
/// stored.
pub open spec fn response_tail_stores(
    c: region::ShmConfig,
    block: u32,
    body_len: nat,
    p: types::Pairs,
) -> Accesses {
    let max = c.block_size as nat;
    if body_len < max {
        seq![
            Access::Bytes {
                off: region::pool_of(c).block(block as int) + body_len,
                data: response_tail(body_len, p, max),
            },
        ]
    } else {
        Seq::empty()
    }
}

/// How many bytes of headers a slot announces behind a body of `body_len` bytes:
/// none where they do not fit.
pub open spec fn response_tail_len(body_len: nat, p: types::Pairs, max: nat) -> nat {
    if body_len < max && headers::headers_fault(p, (max - body_len) as nat) is None {
        headers::header_bytes(p).len()
    } else {
        0
    }
}

/// The segment after a response was written, behind a body of `body_len` bytes
/// that is in the block already.
pub open spec fn after_response_tail(
    c: region::ShmConfig,
    m: Seq<u8>,
    slot: int,
    block: u32,
    body_len: nat,
    p: types::Pairs,
    status: u16,
) -> Seq<u8> {
    let t = response_tail(body_len, p, c.block_size as nat);
    with_response_meta(
        memory::put(m, region::pool_of(c).block(block as int) + body_len, t),
        slot,
        block,
        status,
        response_tail_len(body_len, p, c.block_size as nat) as u32,
        frame::field32(body_len),
    )
}

/// The data of a response in its slot.
#[derive(Debug, Clone, Copy, PartialEq, Eq)]
pub struct ResponseMeta {
    /// The status.
    pub status: u16,
    /// Length of the body.
    pub body_len: u32,
    /// Length of the headers.
    pub headers_len: u32,
}

/// The data of a response in a slot.
pub open spec fn response_meta(m: Seq<u8>, slot: int) -> ResponseMeta {
    let s = region::slot_off(slot);
    ResponseMeta {
        status: memory::u16_at(m, s + S_STATUS),
        body_len: memory::u32_at(m, s + S_RESPONSE_BODY_LEN),
        headers_len: memory::u32_at(m, s + S_RESPONSE_HEADERS_LEN),
    }
}

/// The response in a block, or what is wrong with it.
pub open spec fn response_in_block(meta: ResponseMeta, b: Seq<u8>) -> Result<
    types::ResponseView,
    error::CrossbarErrorView,
> {
    let body_end = meta.body_len as int;
    let end = body_end + meta.headers_len;
    if end > b.len() {
        Err(
            error::CrossbarErrorView::ShmInvalidRegion(
                "response payload ("@ + text::decimal(meta.body_len as nat) + "+"@ + text::decimal(
                    meta.headers_len as nat,
                ) + ") exceeds block size ("@ + text::decimal(b.len()) + ")"@,
            ),
        )
    } else {
        match headers_or_none(b.subrange(body_end, end)) {
            Err(m) => Err(error::CrossbarErrorView::Io(m)),
            Ok(p) => Ok(
                types::ResponseView {
                    status: meta.status,
                    headers: p,
                    body: b.subrange(0, body_end),
                },
            ),
        }
    }
}

/// The response that a slot names, or what is wrong with it.
pub open spec fn response_at(c: region::ShmConfig, m: Seq<u8>, slot: int) -> Result<
    types::ResponseView,
    error::CrossbarErrorView,
> {
    let block = memory::u32_at(m, region::slot_off(slot) + S_RESPONSE_BLOCK);
    if block >= c.block_count {
        Err(block_fault(block, c.block_count))
    } else {
        response_in_block(
            response_meta(m, slot),
            memory::bytes_at(m, region::pool_of(c).block(block as int), c.block_size as int),
        )
    }
}

/// Reads the response in a block.
pub fn parse_response(meta: ResponseMeta, block: u32, b: &[u8]) -> (r: Result<
    Response,
    CrossbarError,
>)
    ensures
        match response_in_block(meta, b@) {
            Ok(v) => r matches Ok(resp) && resp@ == v && resp.headers.wf() && body_in(
                resp.body,
                block,
            ),
            Err(f) => r matches Err(e) && e@ == f,
        },
{
    let max: usize = b.len();
    if meta.body_len as u64 + meta.headers_len as u64 > max as u64 {
        let s: String = add_number(text::text("response payload ("), meta.body_len as u64);
        let s: String = add_number(add_text(s, "+"), meta.headers_len as u64);
        let s: String = add_number(add_text(s, ") exceeds block size ("), max as u64);
        return Err(CrossbarError::ShmInvalidRegion(add_text(s, ")")));
    }
    let body_end: usize = meta.body_len as usize;
    let end: usize = body_end + meta.headers_len as usize;
    let headers: StringMap = match headers_of(copy_range(b, body_end, end).as_slice()) {
        Ok(h) => h,
        Err(e) => {
            return Err(e);
        },
    };
    Ok(
        Response {
            status: meta.status,
            headers,
            body: body_of(block, copy_range(b, 0, body_end)),
        },
    )
}

fn out_of_bounds(block: u32, count: u32) -> (r: CrossbarError)
    ensures
        r@ == block_fault(block, count),
{
    let s: String = add_number(text::text("block index "), block as u64);
    let s: String = add_number(add_text(s, " out of bounds (max "), count as u64);
    CrossbarError::ShmInvalidRegion(add_text(s, ")"))
}

fn too_large(size: u64, max: u32) -> (r: CrossbarError)
    ensures
        r@ == (error::CrossbarErrorView::ShmMessageTooLarge { size, max: max as u64 }),
{
    CrossbarError::ShmMessageTooLarge { size, max: max as u64 }
}

impl<M: SharedMemory> ShmRegion<M> {
    fn block_off(&self, block: u32) -> (r: usize)
        requires
            self.wf(),
            block < self.block_count,
        ensures
            r == region::pool_of(self.config).block(block as int),
            r + self.block_size <= self.mem.image().len() <= usize::MAX,
    {
        let p: PoolLayout = self.pool();
        proof {
            pool::lemma_block(p, block as int, self.mem.image().len());
        }
        p.block_off(block)
    }

    fn set_request_meta(
        &mut self,
        slot: u32,
        block: u32,
        method: Method,
        uri_len: u32,
        body_len: u32,
        headers_len: u32,
    )
        requires
            old(self).wf(),
            slot < old(self).slot_count,
        ensures
            final(self).wf(),
            old(self).same_segment(final(self)),
            final(self).mem.accesses() == old(self).mem.accesses() + request_meta_stores(
                slot as int,
                block,
                method,
                uri_len as nat,
                body_len as nat,
                headers_len as nat,
            ),
            old(self).mem.exclusive() ==> final(self).mem.image() == with_request_meta(
                old(self).mem.image(),
                slot as int,
                block,
                method,
                uri_len as nat,
                body_len as nat,
                headers_len as nat,
            ),
    {
        self.set_slot_method(slot, u8::from(method));
        self.set_uri_len(slot, uri_len);
        self.set_body_len(slot, body_len);
        self.set_headers_data_len(slot, headers_len);
        self.set_request_block_idx(slot, block);
        assert(self.mem.accesses() =~= old(self).mem.accesses() + request_meta_stores(
            slot as int,
            block,
            method,
            uri_len as nat,
            body_len as nat,
            headers_len as nat,
        ));
    }

    /// Writes a request into a block, and its data into a slot. Of a request that
    /// does not fit the parts in front of the first one that does not are written,
    /// and its slot stays as it is.
    pub fn write_request_to_block(&mut self, slot: u32, block: u32, req: &Request) -> (r: Result<
        (),
        CrossbarError,
    >)
        requires
            old(self).wf(),
            slot < old(self).slot_count,
            block < old(self).block_count,
        ensures
            final(self).wf(),
            old(self).same_segment(final(self)),
            match request_fault(req@, old(self).block_size as nat) {
                None => {
                    &&& r is Ok
                    &&& final(self).mem.accesses() == old(self).mem.accesses() + request_stores(
                        old(self).config,
                        slot as int,
                        block,
                        req@,
                    )
                    &&& old(self).mem.exclusive() ==> final(self).mem.image() == after_request(
                        old(self).config,
                        old(self).mem.image(),
                        slot as int,
                        block,
                        req@,
                    )
                },
                Some(f) => {
                    &&& r matches Err(e) && e@ == f
                    &&& final(self).mem.accesses() == old(self).mem.accesses()
                        + request_block_stores(old(self).config, block, req@)
                    &&& old(self).mem.exclusive() ==> final(self).mem.image()
                        == after_refused_request(
                        old(self).config,
                        old(self).mem.image(),
                        block,
                        req@,
                    )
                },
            },
    {
        let body: Vec<u8> = req.body.to_vec();
        let max: u32 = self.block_size;
        let body_len: usize = body.len();
        let ghost first = self.mem.accesses();
        if body_len as u64 > max as u64 {
            assert(first + request_block_stores(self.config, block, req@) =~= first);
            return Err(too_large(body_len as u64, max));
        }
        let off: usize = self.block_off(block);
        self.mem.write(off, body.as_slice());
        let mut tail: Vec<u8> = Vec::new();
        let headers_len: Result<usize, CrossbarError> = self.request_tail(
            body_len,
            req.uri.raw(),
            &req.headers,
            &mut tail,
        );
        self.mem.write(off + body_len, tail.as_slice());
        assert(self.mem.accesses() =~= first + request_block_stores(self.config, block, req@));
        match headers_len {
            Ok(n) => {
                let uri_len: usize = bytes_of(req.uri.raw()).len();
                self.set_request_meta(
                    slot,
                    block,
                    req.method,
                    uri_len as u32,
                    body_len as u32,
                    n as u32,
                );
                assert(self.mem.accesses() =~= first + request_stores(
                    self.config,
                    slot as int,
                    block,
                    req@,
                ));
                Ok(())
            },
            Err(e) => Err(e),
        }
    }

    fn request_tail(
        &self,
        body_len: usize,
        uri: &str,
        headers: &StringMap,
        out: &mut Vec<u8>,
    ) -> (r: Result<usize, CrossbarError>)
        requires
            old(out)@.len() == 0,
        ensures
            final(out)@ == tail_written(
                body_len as nat,
                uri@,
                headers.pairs(),
                self.block_size as nat,
            ),
            final(out)@.len() > 0 ==> body_len + final(out)@.len() <= self.block_size,
            match tail_fault(body_len as nat, uri@, headers.pairs(), self.block_size as nat) {
                None => {
                    &&& r matches Ok(n) && n == headers::header_bytes(headers.pairs()).len()
                    &&& final(out)@ == tail_bytes(uri@, headers.pairs())
                    &&& body_len + final(out)@.len() <= self.block_size
                },
                Some(f) => r matches Err(e) && e@ == f,
            },
    {
        let max: u32 = self.block_size;
        let b: &[u8] = bytes_of(uri);
        let uri_len: usize = b.len();
        assert(b@.len() == types::text_bytes(uri@).len());
        let end: u128 = body_len as u128 + uri_len as u128;
        if end > max as u128 {
            assert(out@ =~= Seq::<u8>::empty());
            return Err(too_large(end as u64, max));
        }
        push_bytes(out, b);
        assert(out@ =~= types::text_bytes(uri@));
        let r: Result<usize, CrossbarError> = serialize_headers_into(
            headers,
            max - end as u32,
            out,
        );
        r
    }

    /// Writes URI and headers of a request behind a body that is in the block
    /// already, and the data of the request into a slot. Of a request that does
    /// not fit the parts in front of the first one that does not are written, and
    /// its slot stays as it is.
    pub fn write_request_direct(
        &mut self,
        slot: u32,
        block: u32,
        body_len: usize,
        method: Method,
        uri: &str,
        headers: &StringMap,
    ) -> (r: Result<(), CrossbarError>)
        requires
            old(self).wf(),
            slot < old(self).slot_count,
            block < old(self).block_count,
        ensures
            final(self).wf(),
            old(self).same_segment(final(self)),
            match tail_fault(
                body_len as nat,
                uri@,
                headers.pairs(),
                old(self).block_size as nat,
            ) {
                None => {
                    &&& r is Ok
                    &&& final(self).mem.accesses() == old(self).mem.accesses() + tail_stores(
                        region::pool_of(old(self).config).block(block as int) + body_len,
                        tail_bytes(uri@, headers.pairs()),
                    ) + request_meta_stores(
                        slot as int,
                        block,
                        method,
                        types::text_bytes(uri@).len(),
                        body_len as nat,
                        headers::header_bytes(headers.pairs()).len(),
                    )
                    &&& old(self).mem.exclusive() ==> final(self).mem.image()
                        == after_request_tail(
                        old(self).config,
                        old(self).mem.image(),
                        slot as int,
                        block,
                        body_len as nat,
                        method,
                        uri@,
                        headers.pairs(),
                    )
                },
                Some(f) => {
                    &&& r matches Err(e) && e@ == f
                    &&& final(self).mem.accesses() == old(self).mem.accesses() + tail_stores(
                        region::pool_of(old(self).config).block(block as int) + body_len,
                        tail_written(
                            body_len as nat,
                            uri@,
                            headers.pairs(),
                            old(self).block_size as nat,
                        ),
                    )
                    &&& old(self).mem.exclusive() ==> final(self).mem.image() == memory::put(
                        old(self).mem.image(),
                        region::pool_of(old(self).config).block(block as int) + body_len,
                        tail_written(
                            body_len as nat,
                            uri@,
                            headers.pairs(),
                            old(self).block_size as nat,
                        ),
                    )
                },
            },
    {
        let ghost m = self.mem.image();
        let mut tail: Vec<u8> = Vec::new();
        let headers_len: Result<usize, CrossbarError> = self.request_tail(
            body_len,
            uri,
            headers,
            &mut tail,
        );
        let off: usize = self.block_off(block);
        if tail.len() > 0 {
            self.mem.write(off + body_len, tail.as_slice());
        } else {
            assert(memory::put(m, off + body_len, tail@) =~= m);
        }
        assert(self.mem.accesses() =~= old(self).mem.accesses() + tail_stores(
            off + body_len,
            tail@,
        ));
        match headers_len {
            Ok(n) => {
                let uri_len: usize = bytes_of(uri).len();
                self.set_request_meta(
                    slot,
                    block,
                    method,
                    uri_len as u32,
                    body_len as u32,
                    n as u32,
                );
                Ok(())
            },
            Err(e) => Err(e),
        }
    }

    /// Reads the request that a slot names. Where it is malformed or has no
    /// body, its block goes back to the pool at once; otherwise its body holds
    /// on to the block, until `release_body`.
    pub fn read_request_from_block(&mut self, slot: u32) -> (r: Result<Request, CrossbarError>)
        requires
            old(self).wf(),
            slot < old(self).slot_count,
        ensures
            final(self).wf(),
            old(self).same_segment(final(self)),
            r matches Ok(req) ==> req.wf() && req.path_params.pairs().len() == 0,
            match r {
                Ok(req) => if req@.body.len() > 0 {
                    final(self).mem.accesses() == old(self).mem.accesses()
                } else {
                    lets_go(old(self).config, old(self).mem, final(self).mem)
                },
                Err(_) => {
                    ||| final(self).mem.accesses() == old(self).mem.accesses()
                    ||| lets_go(old(self).config, old(self).mem, final(self).mem)
                },
            },
            old(self).mem.exclusive() ==> {
                let m = old(self).mem.image();
                let c = old(self).config;
                let block = memory::u32_at(
                    m,
                    region::slot_off(slot as int) + S_REQUEST_BLOCK,
                );
                &&& match request_at(c, m, slot as int) {
                    Ok(v) => r matches Ok(req) && req@ == v && body_in(req.body, block),
                    Err(f) => r matches Err(e) && e@ == f,
                }
                &&& final(self).mem.image() == after_message(
                    c,
                    m,
                    block,
                    request_at(c, m, slot as int) matches Ok(v) && v.body.len() > 0,
                )
            },
    {
        let block: u32 = self.request_block_idx(slot);
        if block >= self.block_count {
            return Err(out_of_bounds(block, self.block_count));
        }
        let meta: RequestMeta = RequestMeta {
            method: self.slot_method(slot),
            uri_len: self.uri_len(slot),
            body_len: self.body_len(slot),
            headers_len: self.headers_data_len(slot),
        };
        let off: usize = self.block_off(block);
        let data: Vec<u8> = self.mem.read(off, self.block_size as usize);
        let r: Result<Request, CrossbarError> = parse_request(meta, block, data.as_slice());
        let keeps_block: bool = match &r {
            Ok(req) => !req.body.is_empty(),
            Err(_) => false,
        };
        if !keeps_block {
            self.free_block(block);
            assert(region::pool_of(self.config).gave(old(self).mem, self.mem, block));
        }
        r
    }

    /// Lets go of a body: the block that it holds on to goes back to the pool.
    pub fn release_body(&mut self, body: &Body)
        requires
            old(self).wf(),
        ensures
            final(self).wf(),
            old(self).same_segment(final(self)),
            match body {
                Body::Mmap(g) => region::pool_of(old(self).config).gave(
                    old(self).mem,
                    final(self).mem,
                    g.block_idx,
                ),
                _ => *final(self) == *old(self),
            },
            old(self).mem.exclusive() ==> final(self).mem.image() == match body {
                Body::Mmap(g) => region::pool_of(old(self).config).after_free(
                    old(self).mem.image(),
                    g.block_idx,
                ),
                _ => old(self).mem.image(),
            },
    {
        if let Body::Mmap(g) = body {
            self.free_block(g.block_idx);
        }
    }

    fn set_response_meta(
        &mut self,
        slot: u32,
        block: u32,
        status: u16,
        headers_len: u32,
        body_len: u32,
    )
        requires
            old(self).wf(),
            slot < old(self).slot_count,
        ensures
            final(self).wf(),
            old(self).same_segment(final(self)),
            final(self).mem.accesses() == old(self).mem.accesses() + response_meta_stores(
                slot as int,
                block,
                status,
                headers_len,
                body_len,
            ),
            old(self).mem.exclusive() ==> final(self).mem.image() == with_response_meta(
                old(self).mem.image(),
                slot as int,
                block,
                status,
                headers_len,
                body_len,
            ),
    {
        self.set_response_block_idx(slot, block);
        self.set_response_status(slot, status);
        self.set_response_headers_data_len(slot, headers_len);
        self.set_response_body_len(slot, body_len);
        assert(self.mem.accesses() =~= old(self).mem.accesses() + response_meta_stores(
            slot as int,
            block,
            status,
            headers_len,
            body_len,
        ));
    }

    /// Writes a response into a block, and its data into a slot. One that does
    /// not fit is replaced by a report that it does not.
    pub fn write_response_to_block(&mut self, slot: u32, block: u32, resp: &Response)
        requires
            old(self).wf(),
            slot < old(self).slot_count,
            block < old(self).block_count,
        ensures
            final(self).wf(),
            old(self).same_segment(final(self)),
            final(self).mem.accesses() == old(self).mem.accesses() + response_stores(
                old(self).config,
                slot as int,
                block,
                resp@,
            ),
            old(self).mem.exclusive() ==> final(self).mem.image() == after_response(
                old(self).config,
                old(self).mem.image(),
                slot as int,
                block,
                resp@,
            ),
    {
        let ghost first = self.mem.accesses();
        let ghost stores = response_stores(self.config, slot as int, block, resp@);
        let max: u32 = self.block_size;
        let off: usize = self.block_off(block);
        let mut body: Vec<u8> = resp.body.to_vec();
        let n: usize = body.len();
        if n as u64 <= max as u64 {
            let headers_len: Result<usize, CrossbarError> = serialize_headers_into(
                &resp.headers,
                max - n as u32,
                &mut body,
            );
            self.mem.write(off, body.as_slice());
            if let Ok(len) = headers_len {
                self.set_response_meta(slot, block, resp.status, len as u32, n as u32);
                assert(self.mem.accesses() =~= first + stores);
                return ;
            }
        }
        let fallback: &[u8] = bytes_of("response too large for shm block");
        proof {
            lemma_too_large_body();
        }
        let len: usize = fallback.len();
        let mut data: Vec<u8> = copy_range(fallback, 0, len);
        data.push(0);
        data.push(0);
        proof {
            let none = Seq::<(Seq<char>, Seq<char>)>::empty();
            assert(headers::header_bytes(none) =~= seq![0u8, 0]);
            assert(data@ =~= too_large_body() + headers::header_bytes(none));
        }
        self.mem.write(off, data.as_slice());
        self.set_response_meta(slot, block, 500, 2, len as u32);
        assert(self.mem.accesses() =~= first + stores);
    }

    /// Writes the headers of a response behind a body that is in the block
    /// already, and the data of the response into a slot. Headers that do not
    /// fit are not announced.
    pub fn write_response_direct(
        &mut self,
        slot: u32,
        block: u32,
        body_len: usize,
        headers: &StringMap,
        status: u16,
    )
        requires
            old(self).wf(),
            slot < old(self).slot_count,
            block < old(self).block_count,
        ensures
            final(self).wf(),
            old(self).same_segment(final(self)),
            final(self).mem.accesses() == old(self).mem.accesses() + response_tail_stores(
                old(self).config,
                block,
                body_len as nat,
                headers.pairs(),
            ) + response_meta_stores(
                slot as int,
                block,
                status,
                response_tail_len(
                    body_len as nat,
                    headers.pairs(),
                    old(self).config.block_size as nat,
                ) as u32,
                frame::field32(body_len as nat),
            ),
            old(self).mem.exclusive() ==> final(self).mem.image() == after_response_tail(
                old(self).config,
                old(self).mem.image(),
                slot as int,
                block,
                body_len as nat,
                headers.pairs(),
                status,
            ),
    {
        let max: u32 = self.block_size;
        let off: usize = self.block_off(block);
        let mut headers_len: usize = 0;
        let ghost m = self.mem.image();
        let ghost b = off as int;
        if (body_len as u64) < max as u64 {
            let mut tail: Vec<u8> = Vec::new();
            let len: Result<usize, CrossbarError> = serialize_headers_into(
                headers,
                max - body_len as u32,
                &mut tail,
            );
            assert(tail@ =~= response_tail(body_len as nat, headers.pairs(), max as nat));
            self.mem.write(off + body_len, tail.as_slice());
            if let Ok(n) = len {
                headers_len = n;
            }
        }
        proof {
            assert(memory::put(m, b + body_len, Seq::empty()) =~= m);
            assert(self.mem.accesses() =~= old(self).mem.accesses() + response_tail_stores(
                self.config,
                block,
                body_len as nat,
                headers.pairs(),
            ));
        }
        self.set_response_meta(
            slot,
            block,
            status,
            headers_len as u32,
            (body_len as u64 % 0x1_0000_0000) as u32,
        );
    }

    /// Reads the response that a slot names. Where it is malformed or has no
    /// body, its block goes back to the pool at once; otherwise its body holds
    /// on to the block, until `release_body`.
    pub fn read_response_from_block(&mut self, slot: u32) -> (r: Result<Response, CrossbarError>)
        requires
            old(self).wf(),
            slot < old(self).slot_count,
        ensures
            final(self).wf(),
            old(self).same_segment(final(self)),
            r matches Ok(resp) ==> resp.headers.wf(),
            match r {
                Ok(resp) => if resp@.body.len() > 0 {
                    final(self).mem.accesses() == old(self).mem.accesses()
                } else {
                    lets_go(old(self).config, old(self).mem, final(self).mem)
                },
                Err(_) => {
                    ||| final(self).mem.accesses() == old(self).mem.accesses()
                    ||| lets_go(old(self).config, old(self).mem, final(self).mem)
                },
            },
            old(self).mem.exclusive() ==> {
                let m = old(self).mem.image();
                let c = old(self).config;
                let block = memory::u32_at(
                    m,
                    region::slot_off(slot as int) + S_RESPONSE_BLOCK,
                );
                &&& match response_at(c, m, slot as int) {
                    Ok(v) => r matches Ok(resp) && resp@ == v && body_in(resp.body, block),
                    Err(f) => r matches Err(e) && e@ == f,
                }
                &&& final(self).mem.image() == after_message(
                    c,
                    m,
                    block,
                    response_at(c, m, slot as int) matches Ok(v) && v.body.len() > 0,
                )
            },
    {
        let block: u32 = self.response_block_idx(slot);
        if block >= self.block_count {
            return Err(out_of_bounds(block, self.block_count));
        }
        let meta: ResponseMeta = ResponseMeta {
            status: self.response_status(slot),
            body_len: self.response_body_len(slot),
            headers_len: self.response_headers_data_len(slot),
        };
        let off: usize = self.block_off(block);
        let data: Vec<u8> = self.mem.read(off, self.block_size as usize);
        let r: Result<Response, CrossbarError> = parse_response(meta, block, data.as_slice());
        let keeps_block: bool = match &r {
            Ok(resp) => !resp.body.is_empty(),
            Err(_) => false,
        };
        if !keeps_block {
            self.free_block(block);
            assert(region::pool_of(self.config).gave(old(self).mem, self.mem, block));
        }
        r
    }
}

/// The report that a response is too large fits in every block.
pub proof fn lemma_too_large_body()
    ensures
        too_large_body().len() == 32,
{
    reveal_strlit("response too large for shm block");
    let s = "response too large for shm block"@;
    assert(vstd::utf8::is_ascii_chars(s));
    vstd::utf8::is_ascii_chars_encode_utf8(s);
}

} // verus!
