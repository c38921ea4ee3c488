//! What a request and a response are in a frame, byte by byte.

use crate::memory;
use crate::transport::frame;
use crate::transport::headers;
use crate::transport::message_laws::{self, headers_size, size};
use crate::types::{self, RequestView, ResponseView};
use vstd::prelude::*;

verus! {

/// A request in a frame is its method in one byte, the lengths of its URI, its body and its
/// headers in four bytes each, and then the URI, the headers and the body.
#[verifier::rlimit(50)]
pub proof fn law_layout_of_a_request_frame(v: RequestView)
    requires
        v.body.len() <= u32::MAX,
        size(v.uri) <= u32::MAX,
        headers_size(v.headers) <= u32::MAX,
    ensures
        ({
            let f = frame::request_frame(v);
            let u = 13 + size(v.uri) as int;
            let h = u + headers_size(v.headers);
            &&& f.len() == h + v.body.len()
            &&& f[0] == types::method_byte(v.method)
            &&& memory::u32_at(f, 1) == size(v.uri)
            &&& memory::u32_at(f, 5) == v.body.len()
            &&& memory::u32_at(f, 9) == headers_size(v.headers)
            &&& f.subrange(13, u) == vstd::utf8::encode_utf8(v.uri)
            &&& f.subrange(u, h) == headers::header_bytes(v.headers)
            &&& f.subrange(h, f.len() as int) == v.body
        }),
{
    message_laws::law_headers_take_their_size(v.headers, 0);
    lemma_request(
        types::method_byte(v.method),
        types::text_bytes(v.uri),
        headers::header_bytes(v.headers),
        v.body,
        frame::request_frame(v),
    );
}

/// A frame of a method, a URI, headers and a body.
#[verifier::rlimit(50)]
proof fn lemma_request(method: u8, u: Seq<u8>, h: Seq<u8>, w: Seq<u8>, f: Seq<u8>)
    requires
        u.len() <= u32::MAX,
        h.len() <= u32::MAX,
        w.len() <= u32::MAX,
        f == seq![method] + memory::le32(frame::field32(u.len())) + memory::le32(
            frame::field32(w.len()),
        ) + memory::le32(frame::field32(h.len())) + (u + h + w),
    ensures
        f.len() == 13 + u.len() + h.len() + w.len(),
        f[0] == method,
        memory::u32_at(f, 1) == u.len(),
        memory::u32_at(f, 5) == w.len(),
        memory::u32_at(f, 9) == h.len(),
        f.subrange(13, 13 + u.len() as int) == u,
        f.subrange(13 + u.len() as int, 13 + u.len() as int + h.len()) == h,
        f.subrange(13 + u.len() as int + h.len(), f.len() as int) == w,
{
    lemma_seven(
        seq![method],
        frame::field32(u.len()),
        frame::field32(w.len()),
        frame::field32(h.len()),
        u,
        h,
        w,
        f,
    );
}

/// The parts of a sequence that seven parts make.
#[verifier::rlimit(50)]
proof fn lemma_seven(
    m: Seq<u8>,
    a: u32,
    b: u32,
    c: u32,
    u: Seq<u8>,
    h: Seq<u8>,
    w: Seq<u8>,
    f: Seq<u8>,
)
    requires
        m.len() == 1,
        f == m + memory::le32(a) + memory::le32(b) + memory::le32(c) + (u + h + w),
    ensures
        f.len() == 13 + u.len() + h.len() + w.len(),
        f[0] == m[0],
        memory::u32_at(f, 1) == a,
        memory::u32_at(f, 5) == b,
        memory::u32_at(f, 9) == c,
        f.subrange(13, 13 + u.len() as int) == u,
        f.subrange(13 + u.len() as int, 13 + u.len() as int + h.len()) == h,
        f.subrange(13 + u.len() as int + h.len(), f.len() as int) == w,
{
    memory::lemma_le32_len(a);
    memory::lemma_le32_len(b);
    memory::lemma_le32_len(c);
    assert(f.subrange(1, 5) =~= memory::le32(a));
    assert(f.subrange(5, 9) =~= memory::le32(b));
    assert(f.subrange(9, 13) =~= memory::le32(c));
    lemma_le32_in(f, 1, a);
    lemma_le32_in(f, 5, b);
    lemma_le32_in(f, 9, c);
    assert(f.subrange(13, 13 + u.len() as int) =~= u);
    assert(f.subrange(13 + u.len() as int, 13 + u.len() as int + h.len()) =~= h);
    assert(f.subrange(13 + u.len() as int + h.len(), f.len() as int) =~= w);
}

proof fn lemma_le32_in(f: Seq<u8>, off: int, v: u32)
    requires
        0 <= off,
        off + 4 <= f.len(),
        f.subrange(off, off + 4) == memory::le32(v),
    ensures
        memory::u32_at(f, off) == v,
{
    memory::lemma_le32_len(v);
    let s = f.subrange(off, off + 4);
    assert(s[0] == f[off]);
    assert(s[1] == f[off + 1]);
    assert(s[2] == f[off + 2]);
    assert(s[3] == f[off + 3]);
    memory::lemma_u32_of(f, off, v);
}

/// A response in a frame is its status in two bytes, the lengths of its body and its headers
/// in four bytes each, and then the headers and the body.
#[verifier::rlimit(50)]
pub proof fn law_layout_of_a_response_frame(v: ResponseView)
    requires
        v.body.len() <= u32::MAX,
        headers_size(v.headers) <= u32::MAX,
    ensures
        ({
            let f = frame::response_frame(v);
            let h = 10 + headers_size(v.headers) as int;
            &&& f.len() == h + v.body.len()
            &&& memory::u16_at(f, 0) == v.status
            &&& memory::u32_at(f, 2) == v.body.len()
            &&& memory::u32_at(f, 6) == headers_size(v.headers)
            &&& f.subrange(10, h) == headers::header_bytes(v.headers)
            &&& f.subrange(h, f.len() as int) == v.body
        }),
{
    message_laws::law_headers_take_their_size(v.headers, 0);
    let f = frame::response_frame(v);
    lemma_five(
        v.status,
        v.body.len() as u32,
        headers_size(v.headers) as u32,
        headers::header_bytes(v.headers),
        v.body,
        f,
    );
}

/// The parts of a sequence that five parts make.
#[verifier::rlimit(50)]
proof fn lemma_five(status: u16, a: u32, b: u32, h: Seq<u8>, w: Seq<u8>, f: Seq<u8>)
    requires
        f == memory::le16(status) + memory::le32(a) + memory::le32(b) + (h + w),
    ensures
        f.len() == 10 + h.len() + w.len(),
        memory::u16_at(f, 0) == status,
        memory::u32_at(f, 2) == a,
        memory::u32_at(f, 6) == b,
        f.subrange(10, 10 + h.len() as int) == h,
        f.subrange(10 + h.len() as int, f.len() as int) == w,
{
    memory::lemma_le16_len(status);
    memory::lemma_le32_len(a);
    memory::lemma_le32_len(b);
    assert(f.subrange(2, 6) =~= memory::le32(a));
    assert(f.subrange(6, 10) =~= memory::le32(b));
    lemma_le32_in(f, 2, a);
    lemma_le32_in(f, 6, b);
    assert(f[0] == memory::le16(status)[0]);
    assert(f[1] == memory::le16(status)[1]);
    assert(f.subrange(10, 10 + h.len() as int) =~= h);
    assert(f.subrange(10 + h.len() as int, f.len() as int) =~= w);
}

} // verus!
