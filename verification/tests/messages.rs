//! Requests, responses, routes, and their wire formats.

use crossbar::error::CrossbarError;
use crossbar::handler::{sync_handler, sync_handler_with_req, SyncFn0, SyncFn1};
use crossbar::router::{delete, get, patch, post, put, PathPattern, Router};
use crossbar::text::{decimal_string, split_text, text_of_bytes_lossy};
use crossbar::transport::client::MemoryClient;
use crossbar::transport::frame::{
    read_request, read_request_head, read_response, read_response_head, write_request,
    write_response, MAX_FRAME_SIZE,
};
use crossbar::transport::headers::{
    deserialize_headers, serialize_headers, serialize_headers_into,
};
use crossbar::transport::shm::rpc_message;
use crossbar::types::{
    parse_query, percent_decode, Body, IntoResponse, Json, Method, Request, Response, StringMap,
    Uri,
};

fn headers(pairs: &[(&str, &str)]) -> StringMap {
    let mut map = StringMap::new();
    for (k, v) in pairs {
        map.insert(k.to_string(), v.to_string());
    }
    map
}

#[test]
fn a_map_keeps_the_last_value_of_a_key() {
    let mut map = headers(&[("a", "1"), ("b", "2")]);
    assert_eq!(map.len(), 2);
    map.insert("a".to_string(), "3".to_string());
    assert_eq!(map.len(), 2);
    assert_eq!(map.get("a").unwrap(), "3");
    assert_eq!(map.get("b").unwrap(), "2");
    assert!(map.get("c").is_none());
    assert!(!map.is_empty());
    assert_eq!(map.copied().get("b").unwrap(), "2");
}

#[test]
fn bodies_hold_bytes() {
    assert!(Body::new().is_empty());
    assert!(Body::default().is_empty());
    let b = Body::from_vec(vec![1, 2, 3]);
    assert_eq!(b.len(), 3);
    assert_eq!(b.clone().to_vec(), vec![1, 2, 3]);
}

#[test]
fn methods_have_names_and_numbers() {
    let all = [
        (Method::Get, "GET", 0u8),
        (Method::Post, "POST", 1),
        (Method::Put, "PUT", 2),
        (Method::Delete, "DELETE", 3),
        (Method::Patch, "PATCH", 4),
    ];
    for (m, name, byte) in all {
        assert_eq!(m.as_str(), name);
        assert_eq!(u8::from(m), byte);
        assert_eq!(Method::try_from(byte), Ok(m));
    }
    assert_eq!(Method::try_from(5), Err(5));
}

#[test]
fn uris_have_a_path_and_a_query() {
    let u = Uri::parse("/a/b?x=1&y=2");
    assert_eq!(u.path(), "/a/b");
    assert_eq!(u.query(), Some("x=1&y=2"));
    assert_eq!(u.raw(), "/a/b?x=1&y=2");
    let u = Uri::parse("http://host:80/a?q");
    assert_eq!(u.path(), "/a");
    assert_eq!(u.query(), Some("q"));
    assert_eq!(Uri::parse("").path(), "/");
    assert_eq!(Uri::parse("/a").query(), None);
}

#[test]
fn scheme_and_authority_are_dropped() {
    let parts = |raw: &str| {
        let u = Uri::parse(raw);
        (u.path().to_string(), u.query().map(|q| q.to_string()))
    };
    let query = |q: &str| Some(q.to_string());
    assert_eq!(parts("tauri://localhost/api/health"), ("/api/health".to_string(), None));
    assert_eq!(parts("app://localhost/foo/bar?q=1"), ("/foo/bar".to_string(), query("q=1")));
    assert_eq!(parts("app://localhost?q=1"), ("/".to_string(), query("q=1")));
    assert_eq!(parts("app://localhost?to=/x"), ("/".to_string(), query("to=/x")));
    assert_eq!(parts("app://localhost"), ("/".to_string(), None));
    assert_eq!(parts("/go?to=http://h/p"), ("/go".to_string(), query("to=http://h/p")));
    assert_eq!(parts("/a://b"), ("/a://b".to_string(), None));
}

#[test]
fn queries_are_decoded() {
    assert_eq!(percent_decode("a%20b+c"), "a b c");
    assert_eq!(percent_decode("%41%"), "A%");
    assert_eq!(percent_decode("%zz"), "%zz");
    assert_eq!(percent_decode("%C3%A9"), "\u{e9}");
    let q = parse_query("x=1&y=a%26b&flag&x=2");
    assert_eq!(q.get("x").unwrap(), "2");
    assert_eq!(q.get("y").unwrap(), "a&b");
    assert_eq!(q.get("flag").unwrap(), "");
    let req = Request::new(Method::Get, "/p?x=1&y=2");
    assert_eq!(req.query_param("y"), Some("2".to_string()));
    assert_eq!(req.query_param("z"), None);
    assert_eq!(req.query_params().len(), 2);
    assert!(req.is_get() && !req.is_post());
}

#[test]
fn responses_are_built_in_steps() {
    let r = Response::ok().with_body("hi").with_header("a", "b");
    assert_eq!((r.status, r.body_str().as_str()), (200, "hi"));
    assert_eq!(r.headers.get("a").unwrap(), "b");
    assert_eq!(Response::not_found().status, 404);
    assert_eq!(Response::not_found().body_str(), "not found");
    assert_eq!(Response::bad_request("no").body_str(), "no");
    let json = Response::json(Some(b"{}".to_vec()));
    assert_eq!(json.status, 200);
    assert_eq!(json.headers.get("content-type").unwrap(), "application/json");
    assert_eq!(Response::json(None).status, 500);
    let broken = Response::ok().with_body(vec![0xffu8, 0x41]);
    assert_eq!(broken.body_str(), "<binary>");
}

#[test]
fn values_become_responses() {
    assert_eq!("x".into_response().body_str(), "x");
    assert_eq!("x".to_string().into_response().status, 200);
    assert_eq!((418u16, "tea").into_response().status, 418);
    assert_eq!((500u16, "e".to_string()).into_response().body_str(), "e");
    assert_eq!(vec![1u8].into_response().body.to_vec(), vec![1]);
    assert_eq!(Body::new().into_response().status, 200);
    let ok: Result<&'static str, (u16, &'static str)> = Ok("fine");
    assert_eq!(ok.into_response().body_str(), "fine");
    let err: Result<&'static str, (u16, &'static str)> = Err((409, "no"));
    assert_eq!(err.into_response().status, 409);
    assert_eq!(Json(Some(b"1".to_vec())).into_response().body_str(), "1");
}

#[test]
fn patterns_match_paths() {
    let p = PathPattern::parse("/users/:id/posts/:post");
    let m = p.matches("/users/7/posts/x").unwrap();
    assert_eq!(m.get("id").unwrap(), "7");
    assert_eq!(m.get("post").unwrap(), "x");
    assert!(p.matches("/users/7/posts").is_none());
    assert!(p.matches("/users/7/likes/x").is_none());
    let l = PathPattern::parse("/health");
    assert!(l.matches_literal("/health"));
    assert!(!l.matches_literal("/healthy"));
    assert!(l.matches("/health").unwrap().is_empty());
}

fn one(_req: Request) -> Response {
    Response::ok().with_body("one")
}

fn two(req: Request) -> Response {
    let id = req.path_param("id").unwrap_or("").to_string();
    Response::ok().with_body(id)
}

type H = SyncFn1<fn(Request) -> Response>;

fn handler(f: fn(Request) -> Response) -> H {
    sync_handler_with_req(f)
}

#[test]
fn the_first_route_that_matches_wins() {
    let router: Router<H> = Router::new()
        .route("/a", get(handler(one)))
        .route("/:id", get(handler(two)))
        .route("/b", get(handler(one)))
        .route("/b", post(handler(one)))
        .route("/c", put(handler(one)))
        .route("/c", delete(handler(one)))
        .route("/c", patch(handler(one)));
    let ask = |m: Method, uri: &str| router.dispatch(Request::new(m, uri));
    assert_eq!(ask(Method::Get, "/a").body_str(), "one");
    assert_eq!(ask(Method::Get, "/b?x=1").body_str(), "b");
    assert_eq!(ask(Method::Post, "/b").body_str(), "one");
    assert_eq!(ask(Method::Patch, "/c").status, 200);
    assert_eq!(ask(Method::Put, "/a").status, 404);
    let info = router.routes_info();
    assert_eq!(info.len(), 7);
    assert_eq!(info[1], (Method::Get, "/:id".to_string()));
    assert!(router.select(Request::new(Method::Get, "/x/y")).is_err());
}

#[test]
fn a_client_in_the_same_process() {
    let client = MemoryClient::new(Router::<H>::new().route("/:id", get(handler(two))));
    assert_eq!(client.get("/me").body_str(), "me");
    assert_eq!(client.post("/me", "body").status, 404);
    let resp = client.request(Request::new(Method::Get, "/you"));
    assert_eq!(resp.body_str(), "you");
    fn pong() -> &'static str {
        "pong"
    }
    let simple: Router<SyncFn0<fn() -> &'static str>> =
        Router::default().route("/ping", get(sync_handler(pong as fn() -> &'static str)));
    assert_eq!(MemoryClient::new(simple).get("/ping").body_str(), "pong");
}

#[test]
fn headers_go_over_the_wire() {
    let h = headers(&[("k", "vv"), ("", "x")]);
    let b = serialize_headers(&h);
    assert_eq!(b, vec![2, 0, 1, 0, 107, 2, 0, 118, 118, 0, 0, 1, 0, 120]);
    let back = deserialize_headers(&b).unwrap();
    assert_eq!(back.len(), 2);
    assert_eq!(back.get("k").unwrap(), "vv");
    assert_eq!(back.get("").unwrap(), "x");
    let mut out = vec![9u8];
    assert_eq!(serialize_headers_into(&h, 14, &mut out).unwrap(), 14);
    assert_eq!(out[0], 9);
    assert_eq!(out[1..].to_vec(), b);
    // What stands in front of a header that cannot be written is written.
    out.clear();
    assert!(matches!(
        serialize_headers_into(&h, 13, &mut out),
        Err(CrossbarError::ShmMessageTooLarge { size: 14, max: 13 })
    ));
    assert_eq!(out, vec![2, 0, 1, 0, 107, 2, 0, 118, 118]);
    out.clear();
    assert!(matches!(
        serialize_headers_into(&h, 1, &mut out),
        Err(CrossbarError::ShmMessageTooLarge { size: 2, max: 1 })
    ));
    assert!(out.is_empty());
    let long = headers(&[("k", &"x".repeat(70_000))]);
    assert!(matches!(
        serialize_headers_into(&long, 100_000, &mut out),
        Err(CrossbarError::HeaderOverflow(_))
    ));
    assert_eq!(out, vec![1, 0]);
}

#[test]
fn broken_headers_are_refused() {
    let text = |b: &[u8]| match deserialize_headers(b) {
        Err(CrossbarError::Io(t)) => t,
        _ => panic!("accepted"),
    };
    assert_eq!(text(&[1]), "headers data too short");
    assert_eq!(text(&[1, 0, 5]), "truncated header key length");
    assert_eq!(text(&[1, 0, 5, 0, 97]), "truncated header key");
    assert_eq!(text(&[1, 0, 1, 0, 0xff, 0, 0]), "header key not UTF-8");
    assert_eq!(text(&[1, 0, 1, 0, 97, 0]), "truncated header value length");
    assert_eq!(text(&[1, 0, 1, 0, 97, 2, 0, 98]), "truncated header value");
    assert_eq!(
        text(&[1, 0, 1, 0, 97, 1, 0, 0xff]),
        "header value not UTF-8"
    );
}

#[test]
fn requests_go_over_a_stream() {
    let mut req = Request::new(Method::Put, "/x?q=1").with_body("the body");
    req.headers = headers(&[("a", "b")]);
    let b = write_request(&req);
    assert_eq!(b[0], 2);
    let head = read_request_head(&b[..13]).unwrap();
    assert_eq!((head.uri_len, head.body_len, head.headers_len), (6, 8, 8));
    assert_eq!(head.payload_len() as usize, b.len() - 13);
    let back = read_request(head, b[13..].to_vec()).unwrap();
    assert_eq!(back.method, Method::Put);
    assert_eq!(back.uri.raw(), "/x?q=1");
    assert_eq!(back.headers.get("a").unwrap(), "b");
    assert_eq!(back.body.to_vec(), b"the body".to_vec());
}

#[test]
fn responses_go_over_a_stream() {
    let resp = Response::with_status(207)
        .with_body("parts")
        .with_header("k", "v");
    let b = write_response(&resp);
    let head = read_response_head(&b[..10]).unwrap();
    assert_eq!(head.status, 207);
    assert_eq!(head.payload_len() as usize, b.len() - 10);
    let back = read_response(head, b[10..].to_vec()).unwrap();
    assert_eq!(back.status, 207);
    assert_eq!(back.body_str(), "parts");
    assert_eq!(back.headers.get("k").unwrap(), "v");
}

#[test]
fn broken_frames_are_refused() {
    let mut b = write_request(&Request::new(Method::Get, "/"));
    b[0] = 9;
    assert!(matches!(
        read_request_head(&b[..13]),
        Err(CrossbarError::InvalidMethod(9))
    ));
    let mut b = write_request(&Request::new(Method::Get, "/"));
    b[5..9].copy_from_slice(&0xffff_ffffu32.to_le_bytes());
    assert!(matches!(
        read_request_head(&b[..13]),
        Err(CrossbarError::FrameTooLarge {
            max: MAX_FRAME_SIZE,
            ..
        })
    ));
    let mut b = write_request(&Request::new(Method::Get, "/"));
    b[13] = 0xff;
    let head = read_request_head(&b[..13]).unwrap();
    assert!(matches!(
        read_request(head, b[13..].to_vec()),
        Err(CrossbarError::Io(_))
    ));
    let mut b = write_response(&Response::ok());
    b[2..6].copy_from_slice(&0xffff_ffffu32.to_le_bytes());
    assert!(matches!(
        read_response_head(&b[..10]),
        Err(CrossbarError::FrameTooLarge { .. })
    ));
}

#[test]
fn messages_read_back() {
    let mut req = Request::new(Method::Patch, "/m").with_body("b");
    req.headers = headers(&[("h", "1")]);
    let b = rpc_message::encode_request(&req, 9, 100).unwrap();
    let (back, correlation) = rpc_message::decode_request(&b).unwrap();
    assert_eq!(correlation, 9);
    assert_eq!(back.method, Method::Patch);
    assert_eq!(back.headers.get("h").unwrap(), "1");
    let text = |b: &[u8]| match rpc_message::decode_request(b) {
        Err(CrossbarError::ShmInvalidRegion(t)) => t,
        _ => panic!("accepted"),
    };
    assert_eq!(text(&b[..15]), "request data too short for header");
    assert_eq!(text(&b[..16]), "request data lengths exceed block");
    let tail = rpc_message::encode_response(&Response::ok().with_body("r"), 3, 100).unwrap();
    let mut whole = vec![200, 0, 0, 0];
    whole.extend(tail);
    let (resp, correlation) = rpc_message::decode_response(&whole).unwrap();
    assert_eq!((resp.status, correlation), (200, 3));
    assert_eq!(resp.body_str(), "r");
    assert!(rpc_message::decode_response(&whole[..16]).is_err());
}

#[test]
fn texts_and_numbers() {
    assert_eq!(decimal_string(0), "0");
    assert_eq!(decimal_string(u64::MAX), "18446744073709551615");
    assert_eq!(split_text("a//b", '/'), vec!["a", "", "b"]);
    assert_eq!(text_of_bytes_lossy(&[104, 0xf0, 105]), "h\u{fffd}i");
}
