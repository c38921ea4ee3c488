//! Clients that hand requests to a router in the same process.

use crate::handler::Handler;
use crate::router::{self, Router};
use crate::types::{self, IntoBody, Method, Request, Response};
use vstd::prelude::*;

verus! {

/// Whether a router takes a request: the handler of the route for it does.
pub open spec fn takes<H: Handler<T>, T>(router: Router<H>, req: Request) -> bool {
    router::first_route(router.routes@, req.method, req.uri.path@, 0) matches Some(i)
        ==> forall|q: Request|
        router::is_routed(router.routes@[i], req, q)
            ==> #[trigger] router.routes@[i].handler.accepts(q)
}

/// Whether a router may answer a request in this way: with this response, the
/// body of which holds on to this block, if to any.
pub open spec fn may_answer<H: Handler<T>, T>(
    router: Router<H>,
    req: Request,
    resp: types::ResponseView,
    held: Option<u32>,
) -> bool {
    match router::first_route(router.routes@, req.method, req.uri.path@, 0) {
        Some(i) => exists|q: Request|
            router::is_routed(router.routes@[i], req, q)
                && #[trigger] router.routes@[i].handler.answers(q, resp, held),
        None => resp == types::plain_response(404, types::text_bytes("not found"@))
            && held is None,
    }
}

/// A request without headers and path parameters.
pub open spec fn is_plain(req: Request, method: Method, uri: Seq<char>, body: Seq<u8>) -> bool {
    &&& req.wf()
    &&& req.method == method
    &&& req.uri.raw@ == uri
    &&& req.headers.pairs().len() == 0
    &&& req.path_params.pairs().len() == 0
    &&& req.body@ == body
}

/// A client that dispatches straight through a router.
pub struct MemoryClient<H> {
    /// The router.
    pub router: Router<H>,
}

impl<H> MemoryClient<H> {
    /// A client of a router.
    pub fn new(router: Router<H>) -> (r: MemoryClient<H>)
        ensures
            r.router == router,
    {
        MemoryClient { router }
    }

    /// Has the router answer a request.
    pub fn request<T>(&self, req: Request) -> (r: Response) where H: Handler<T>
        requires
            self.router.wf(),
            takes::<H, T>(self.router, req),
        ensures
            may_answer::<H, T>(self.router, req, r@, r.body.held()),
    {
        self.router.dispatch(req)
    }

    /// Has the router answer a `GET` request.
    pub fn get<T>(&self, uri: &str) -> (r: Response) where H: Handler<T>
        requires
            self.router.wf(),
            forall|req: Request|
                is_plain(req, Method::Get, uri@, Seq::empty()) ==> #[trigger] takes::<H, T>(
                    self.router,
                    req,
                ),
        ensures
            exists|req: Request|
                is_plain(req, Method::Get, uri@, Seq::empty()) && #[trigger] may_answer::<H, T>(
                    self.router,
                    req,
                    r@,
                    r.body.held(),
                ),
    {
        let req: Request = Request::new(Method::Get, uri);
        assert(is_plain(req, Method::Get, uri@, Seq::empty()));
        self.request(req)
    }

    /// Has the router answer a `POST` request.
    pub fn post<B: IntoBody, T>(&self, uri: &str, body: B) -> (r: Response) where H: Handler<T>
        requires
            self.router.wf(),
            forall|req: Request|
                is_plain(req, Method::Post, uri@, body.body_bytes()) ==> #[trigger] takes::<H, T>(
                    self.router,
                    req,
                ),
        ensures
            exists|req: Request|
                is_plain(req, Method::Post, uri@, body.body_bytes())
                    && #[trigger] may_answer::<H, T>(self.router, req, r@, r.body.held()),
    {
        let req: Request = Request::new(Method::Post, uri).with_body(body);
        assert(is_plain(req, Method::Post, uri@, body.body_bytes()));
        self.request(req)
    }
}

/// The same client under its other name.
pub type InProcessClient<H> = MemoryClient<H>;

} // verus!
