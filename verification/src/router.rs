//! Routes requests to handlers.

use crate::handler::Handler;
use crate::text::{self, chars_of, same_text, split_text, text_range};
use crate::types::{self, percent_decode, Method, Request, Response, StringMap};
use vstd::prelude::*;

verus! {

/// The first `n` of some pieces without the empty ones.
pub open spec fn filled(pieces: Seq<Seq<char>>, n: nat) -> Seq<Seq<char>>
    decreases n,
{
    if n == 0 {
        Seq::empty()
    } else {
        let before = filled(pieces, (n - 1) as nat);
        if pieces[n - 1].len() == 0 {
            before
        } else {
            before.push(pieces[n - 1])
        }
    }
}

/// The segments of a path: what is between slashes, where there is anything.
pub open spec fn path_parts(path: Seq<char>) -> Seq<Seq<char>> {
    let pieces = text::split(path, '/');
    filled(pieces, pieces.len())
}

/// Takes a path apart.
fn split_path(path: &str) -> (r: Vec<String>)
    ensures
        text::texts(r@) == path_parts(path@),
{
    let pieces: Vec<String> = split_text(path, '/');
    let ghost t = text::split(path@, '/');
    let mut out: Vec<String> = Vec::new();
    let mut i: usize = 0;
    assert(text::texts(out@) =~= filled(t, 0));
    while i < pieces.len()
        invariant
            i <= pieces@.len(),
            text::texts(pieces@) == t,
            text::texts(out@) == filled(t, i as nat),
        decreases pieces@.len() - i,
    {
        let piece: &String = &pieces[i];
        assert(piece@ == text::texts(pieces@)[i as int]);
        if !piece.as_str().is_empty() {
            let copy: String = piece.clone();
            let ghost before = out@;
            out.push(copy);
            assert(text::texts(out@) =~= text::texts(before).push(copy@));
        }
        i = i + 1;
    }
    out
}

/// A segment of a pattern as plain text.
pub enum SegmentView {
    /// Matches itself.
    Literal(Seq<char>),
    /// Matches anything, under a name.
    Param(Seq<char>),
}

/// A segment of a pattern.
#[derive(Debug)]
pub enum Segment {
    /// Matches itself.
    Literal(String),
    /// Matches anything, under a name.
    Param(String),
}

impl View for Segment {
    type V = SegmentView;

    open spec fn view(&self) -> SegmentView {
        match self {
            Segment::Literal(s) => SegmentView::Literal(s@),
            Segment::Param(s) => SegmentView::Param(s@),
        }
    }
}

/// The segment that a part of a pattern stands for: with a colon in front it
/// is a name.
pub open spec fn segment_of(part: Seq<char>) -> SegmentView {
    if part.len() > 0 && part[0] == ':' {
        SegmentView::Param(part.subrange(1, part.len() as int))
    } else {
        SegmentView::Literal(part)
    }
}

/// The segments of a pattern.
pub open spec fn pattern_segments(raw: Seq<char>) -> Seq<SegmentView> {
    let parts = path_parts(raw);
    Seq::new(parts.len(), |i: int| segment_of(parts[i]))
}

/// Whether a path fits some segments: there are as many parts, and where a
/// segment is literal the part is the same.
pub open spec fn fits(segments: Seq<SegmentView>, parts: Seq<Seq<char>>) -> bool {
    &&& segments.len() == parts.len()
    &&& forall|i: int|
        0 <= i < segments.len() ==> (#[trigger] segments[i] matches SegmentView::Literal(l) ==> l
            == parts[i])
}

/// What the names among the first `n` segments capture, decoded.
pub open spec fn captures(
    segments: Seq<SegmentView>,
    parts: Seq<Seq<char>>,
    n: nat,
) -> types::Pairs
    decreases n,
{
    if n == 0 {
        Seq::empty()
    } else {
        let before = captures(segments, parts, (n - 1) as nat);
        match segments[n - 1] {
            SegmentView::Literal(_) => before,
            SegmentView::Param(name) => types::with_pair(
                before,
                name,
                types::decoded(parts[n - 1]),
            ),
        }
    }
}

/// Whether a path fits a pattern.
pub open spec fn pattern_fits(raw: Seq<char>, path: Seq<char>) -> bool {
    fits(pattern_segments(raw), path_parts(path))
}

/// What a pattern captures of a path.
pub open spec fn pattern_captures(raw: Seq<char>, path: Seq<char>) -> types::Pairs {
    let segments = pattern_segments(raw);
    captures(segments, path_parts(path), segments.len())
}

/// A compiled pattern.
#[derive(Debug)]
pub struct PathPattern {
    /// The segments.
    pub segments: Vec<Segment>,
    /// The pattern as it was given.
    pub raw: String,
    /// Whether there is a named segment.
    pub has_params: bool,
}

fn compile_segment(part: &str) -> (r: Segment)
    ensures
        r@ == segment_of(part@),
{
    let c: Vec<char> = chars_of(part);
    let n: usize = c.len();
    if n > 0 && c[0] == ':' {
        Segment::Param(text_range(c.as_slice(), 1, n))
    } else {
        Segment::Literal(part.to_owned())
    }
}

impl PathPattern {
    /// The segments as plain text.
    pub open spec fn segments_view(&self) -> Seq<SegmentView> {
        Seq::new(self.segments@.len(), |i: int| self.segments@[i]@)
    }

    /// The segments are those of the pattern as it was given.
    pub open spec fn wf(&self) -> bool {
        &&& self.segments_view() == pattern_segments(self.raw@)
        &&& self.has_params == exists|i: int|
            0 <= i < self.segments@.len() && #[trigger] self.segments@[i] is Param
    }

    /// Compiles a pattern.
    pub fn parse(pattern: &str) -> (r: PathPattern)
        ensures
            r.wf(),
            r.raw@ == pattern@,
    {
        let parts: Vec<String> = split_path(pattern);
        let mut segments: Vec<Segment> = Vec::new();
        let mut has_params: bool = false;
        let mut i: usize = 0;
        while i < parts.len()
            invariant
                i <= parts@.len(),
                segments@.len() == i,
                text::texts(parts@) == path_parts(pattern@),
                forall|j: int|
                    0 <= j < i ==> (#[trigger] segments@[j])@ == segment_of(parts@[j]@),
                has_params == exists|j: int| 0 <= j < i && #[trigger] segments@[j] is Param,
            decreases parts@.len() - i,
        {
            let segment: Segment = compile_segment(parts[i].as_str());
            let is_param: bool = match segment {
                Segment::Param(_) => true,
                Segment::Literal(_) => false,
            };
            let ghost before = segments@;
            segments.push(segment);
            proof {
                assert(forall|j: int| 0 <= j < i ==> #[trigger] segments@[j] == before[j]);
                if has_params {
                    let j = choose|j: int| 0 <= j < i && #[trigger] before[j] is Param;
                    assert(segments@[j] is Param);
                }
                assert(segments@[i as int] is Param == is_param);
            }
            has_params = has_params || is_param;
            i = i + 1;
        }
        let r: PathPattern = PathPattern { segments, raw: pattern.to_owned(), has_params };
        proof {
            let t = path_parts(pattern@);
            assert forall|j: int| 0 <= j < t.len() implies #[trigger] t[j] == parts@[j]@ by {
                assert(t[j] == text::texts(parts@)[j]);
            }
            assert(r.segments_view() =~= pattern_segments(pattern@));
        }
        r
    }

    /// Whether a path fits the pattern. For patterns without names.
    pub fn matches_literal(&self, path: &str) -> (r: bool)
        requires
            self.wf(),
            !self.has_params,
        ensures
            r == pattern_fits(self.raw@, path@),
    {
        self.matches(path).is_some()
    }

    /// What the pattern captures of a path, if the path fits.
    pub fn matches(&self, path: &str) -> (r: Option<StringMap>)
        requires
            self.wf(),
        ensures
            match r {
                Some(map) => pattern_fits(self.raw@, path@) && map.wf() && map.pairs()
                    == pattern_captures(self.raw@, path@),
                None => !pattern_fits(self.raw@, path@),
            },
    {
        let parts: Vec<String> = split_path(path);
        let ghost segs = pattern_segments(self.raw@);
        let ghost t = path_parts(path@);
        assert(parts@.len() == t.len());
        if parts.len() != self.segments.len() {
            return None;
        }
        let mut params: StringMap = StringMap::new();
        let mut i: usize = 0;
        while i < self.segments.len()
            invariant
                i <= self.segments@.len(),
                parts@.len() == self.segments@.len(),
                segs == pattern_segments(self.raw@),
                t == path_parts(path@),
                self.segments_view() == segs,
                text::texts(parts@) == t,
                params.wf(),
                params.pairs() == captures(segs, t, i as nat),
                forall|j: int|
                    0 <= j < i ==> (#[trigger] segs[j] matches SegmentView::Literal(l) ==> l
                        == t[j]),
            decreases self.segments@.len() - i,
        {
            assert(self.segments_view()[i as int] == self.segments@[i as int]@);
            assert(text::texts(parts@)[i as int] == parts@[i as int]@);
            match &self.segments[i] {
                Segment::Literal(l) => {
                    if !same_text(l.as_str(), parts[i].as_str()) {
                        return None;
                    }
                },
                Segment::Param(name) => {
                    params.insert(name.clone(), percent_decode(parts[i].as_str()));
                },
            }
            i = i + 1;
        }
        Some(params)
    }
}

/// A route: a method, a pattern, and what answers.
#[derive(Debug)]
pub struct Route<H> {
    /// The method.
    pub method: Method,
    /// The pattern.
    pub pattern: PathPattern,
    /// The handler.
    pub handler: H,
}

impl<H> Route<H> {
    /// Whether the route is for a method and a path.
    pub open spec fn takes(&self, method: Method, path: Seq<char>) -> bool {
        self.method == method && pattern_fits(self.pattern.raw@, path)
    }
}

/// The position of the first route for a method and a path, from `from` on.
pub open spec fn first_route<H>(
    routes: Seq<Route<H>>,
    method: Method,
    path: Seq<char>,
    from: int,
) -> Option<int>
    decreases routes.len() - from,
{
    if from >= routes.len() {
        None
    } else if routes[from].takes(method, path) {
        Some(from)
    } else {
        first_route(routes, method, path, from + 1)
    }
}

/// A request as the handler of a route gets it: with what the pattern
/// captures, where it has names.
pub open spec fn is_routed<H>(route: Route<H>, before: Request, after: Request) -> bool {
    &&& after.method == before.method
    &&& after.uri == before.uri
    &&& after.headers == before.headers
    &&& after.body == before.body
    &&& if route.pattern.has_params {
        after.path_params.wf() && after.path_params.pairs() == pattern_captures(
            route.pattern.raw@,
            before.uri.path@,
        )
    } else {
        after.path_params == before.path_params
    }
}

/// Routes requests to handlers, in the order in which routes were added.
#[derive(Debug)]
pub struct Router<H> {
    /// The routes.
    pub routes: Vec<Route<H>>,
}

impl<H> Default for Router<H> {
    fn default() -> (r: Router<H>)
        ensures
            r.routes@.len() == 0,
            r.wf(),
    {
        Router::new()
    }
}

impl<H> Router<H> {
    /// All patterns are compiled properly.
    pub open spec fn wf(&self) -> bool {
        forall|i: int| 0 <= i < self.routes@.len() ==> (#[trigger] self.routes@[i]).pattern.wf()
    }

    /// A router without routes.
    pub fn new() -> (r: Router<H>)
        ensures
            r.routes@.len() == 0,
            r.wf(),
    {
        Router { routes: Vec::new() }
    }

    /// Adds a route behind all others.
    pub fn route(self, pattern: &str, entry: (Method, H)) -> (r: Router<H>)
        requires
            self.wf(),
        ensures
            r.wf(),
            r.routes@.len() == self.routes@.len() + 1,
            forall|i: int| 0 <= i < self.routes@.len() ==> #[trigger] r.routes@[i] == self.routes@[i],
            r.routes@.last().method == entry.0,
            r.routes@.last().handler == entry.1,
            r.routes@.last().pattern.raw@ == pattern@,
    {
        let mut routes: Vec<Route<H>> = self.routes;
        routes.push(
            Route { method: entry.0, pattern: PathPattern::parse(pattern), handler: entry.1 },
        );
        Router { routes }
    }

    /// Finds the handler for a request and readies the request for it.
    /// Without one, answers that there is none.
    pub fn select(&self, req: Request) -> (r: Result<(&H, Request), Response>)
        requires
            self.wf(),
        ensures
            match first_route(self.routes@, req.method, req.uri.path@, 0) {
                Some(i) => r matches Ok((h, q)) && 0 <= i < self.routes@.len() && *h
                    == self.routes@[i].handler && is_routed(self.routes@[i], req, q),
                None => r matches Err(resp) && resp@ == types::plain_response(
                    404,
                    types::text_bytes("not found"@),
                ) && resp.body !is Mmap,
            },
    {
        let mut i: usize = 0;
        while i < self.routes.len()
            invariant
                i <= self.routes@.len(),
                self.wf(),
                first_route(self.routes@, req.method, req.uri.path@, i as int) == first_route(
                    self.routes@,
                    req.method,
                    req.uri.path@,
                    0,
                ),
            decreases self.routes@.len() - i,
        {
            let route: &Route<H> = &self.routes[i];
            assert(route.pattern.wf());
            if route.method == req.method {
                if route.pattern.has_params {
                    if let Some(params) = route.pattern.matches(req.uri.path()) {
                        let q: Request = Request {
                            method: req.method,
                            uri: req.uri,
                            headers: req.headers,
                            body: req.body,
                            path_params: params,
                        };
                        return Ok((&route.handler, q));
                    }
                } else if route.pattern.matches_literal(req.uri.path()) {
                    return Ok((&route.handler, req));
                }
            }
            i = i + 1;
        }
        Err(Response::not_found())
    }

    /// Answers a request: by the handler of the first route that takes it, or
    /// by reporting that there is none.
    pub fn dispatch<T>(&self, req: Request) -> (r: Response) where H: Handler<T>
        requires
            self.wf(),
            first_route(self.routes@, req.method, req.uri.path@, 0) matches Some(i) ==> forall|
                q: Request,
            |
                is_routed(self.routes@[i], req, q) ==> #[trigger] self.routes@[i].handler.accepts(
                    q,
                ),
        ensures
            match first_route(self.routes@, req.method, req.uri.path@, 0) {
                Some(i) => exists|q: Request|
                    is_routed(self.routes@[i], req, q)
                        && #[trigger] self.routes@[i].handler.answers(q, r@, r.body.held()),
                None => r@ == types::plain_response(404, types::text_bytes("not found"@))
                    && r.body !is Mmap,
            },
    {
        match self.select(req) {
            Ok((handler, q)) => handler.call(q),
            Err(resp) => resp,
        }
    }

    /// Methods and patterns of all routes.
    pub fn routes_info(&self) -> (r: Vec<(Method, String)>)
        ensures
            r@.len() == self.routes@.len(),
            forall|i: int|
                0 <= i < r@.len() ==> (#[trigger] r@[i]).0 == self.routes@[i].method && r@[i].1@
                    == self.routes@[i].pattern.raw@,
    {
        let mut out: Vec<(Method, String)> = Vec::new();
        let mut i: usize = 0;
        while i < self.routes.len()
            invariant
                i <= self.routes@.len(),
                out@.len() == i,
                forall|j: int|
                    0 <= j < i ==> (#[trigger] out@[j]).0 == self.routes@[j].method && out@[j].1@
                        == self.routes@[j].pattern.raw@,
            decreases self.routes@.len() - i,
        {
            out.push((self.routes[i].method, self.routes[i].pattern.raw.clone()));
            i = i + 1;
        }
        out
    }
}

/// The first route that takes a request wins: the route that is found takes
/// it, and no route before that one does. None is found only if none takes it.
pub proof fn law_first_match_wins<H>(routes: Seq<Route<H>>, method: Method, path: Seq<char>)
    ensures
        match first_route(routes, method, path, 0) {
            Some(i) => 0 <= i < routes.len() && routes[i].takes(method, path) && forall|j: int|
                0 <= j < i ==> !(#[trigger] routes[j]).takes(method, path),
            None => forall|j: int|
                0 <= j < routes.len() ==> !(#[trigger] routes[j]).takes(method, path),
        },
{
    lemma_first_route(routes, method, path, 0);
}

proof fn lemma_first_route<H>(routes: Seq<Route<H>>, method: Method, path: Seq<char>, from: int)
    requires
        0 <= from,
    ensures
        match first_route(routes, method, path, from) {
            Some(i) => from <= i < routes.len() && routes[i].takes(method, path) && forall|j: int|
                from <= j < i ==> !(#[trigger] routes[j]).takes(method, path),
            None => forall|j: int|
                from <= j < routes.len() ==> !(#[trigger] routes[j]).takes(method, path),
        },
    decreases routes.len() - from,
{
    if from < routes.len() {
        lemma_first_route(routes, method, path, from + 1);
    }
}

/// A route added later changes nothing for a request that an earlier one
/// takes.
pub proof fn law_later_routes_do_not_interfere<H>(
    routes: Seq<Route<H>>,
    added: Route<H>,
    method: Method,
    path: Seq<char>,
)
    requires
        first_route(routes, method, path, 0) is Some,
    ensures
        first_route(routes.push(added), method, path, 0) == first_route(routes, method, path, 0),
{
    lemma_push_route(routes, added, method, path, 0);
}

proof fn lemma_push_route<H>(
    routes: Seq<Route<H>>,
    added: Route<H>,
    method: Method,
    path: Seq<char>,
    from: int,
)
    requires
        0 <= from,
        first_route(routes, method, path, from) is Some,
    ensures
        first_route(routes.push(added), method, path, from) == first_route(
            routes,
            method,
            path,
            from,
        ),
    decreases routes.len() - from,
{
    if from < routes.len() && !routes[from].takes(method, path) {
        lemma_push_route(routes, added, method, path, from + 1);
    }
}

/// An entry for `GET` requests.
pub fn get<H>(handler: H) -> (r: (Method, H))
    ensures
        r == (Method::Get, handler),
{
    (Method::Get, handler)
}

/// An entry for `POST` requests.
pub fn post<H>(handler: H) -> (r: (Method, H))
    ensures
        r == (Method::Post, handler),
{
    (Method::Post, handler)
}

/// An entry for `PUT` requests.
pub fn put<H>(handler: H) -> (r: (Method, H))
    ensures
        r == (Method::Put, handler),
{
    (Method::Put, handler)
}

/// An entry for `DELETE` requests.
pub fn delete<H>(handler: H) -> (r: (Method, H))
    ensures
        r == (Method::Delete, handler),
{
    (Method::Delete, handler)
}

/// An entry for `PATCH` requests.
pub fn patch<H>(handler: H) -> (r: (Method, H))
    ensures
        r == (Method::Patch, handler),
{
    (Method::Patch, handler)
}

} // verus!
