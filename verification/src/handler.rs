//! Handlers: functions that answer requests.

use crate::types::{self, IntoResponse, Request, Response};
use vstd::prelude::*;

verus! {

/// What answers requests. `T` tells handlers with and without an argument
/// apart.
pub trait Handler<T> {
    /// Whether the handler takes a request.
    spec fn accepts(&self, req: Request) -> bool;

    /// Whether the handler may answer a request in this way: with this response,
    /// the body of which holds on to this block, if to any.
    spec fn answers(&self, req: Request, resp: types::ResponseView, held: Option<u32>) -> bool;

    /// Answers a request.
    fn call(&self, req: Request) -> (r: Response)
        requires
            self.accepts(req),
        ensures
            self.answers(req, r@, r.body.held()),
    ;
}

/// A function without arguments as a handler.
pub struct SyncFn0<F>(pub F);

/// A function of a request as a handler.
pub struct SyncFn1<F>(pub F);

/// Makes a handler of a function that does not look at the request.
pub fn sync_handler<F, R>(f: F) -> (r: SyncFn0<F>) where F: Fn() -> R, R: IntoResponse
    ensures
        r.0 == f,
{
    SyncFn0(f)
}

/// Makes a handler of a function that takes the request.
pub fn sync_handler_with_req<F, R>(f: F) -> (r: SyncFn1<F>) where
    F: Fn(Request) -> R,
    R: IntoResponse,

    ensures
        r.0 == f,
{
    SyncFn1(f)
}

impl<F, R> Handler<()> for SyncFn0<F> where F: Fn() -> R, R: IntoResponse {
    open spec fn accepts(&self, req: Request) -> bool {
        call_requires(self.0, ())
    }

    open spec fn answers(
        &self,
        req: Request,
        resp: types::ResponseView,
        held: Option<u32>,
    ) -> bool {
        exists|x: R| #[trigger]
            call_ensures(self.0, (), x) && resp == x.as_response() && held == x.response_block()
    }

    fn call(&self, req: Request) -> (r: Response) {
        let x: R = (self.0)();
        assert(call_ensures(self.0, (), x));
        x.into_response()
    }
}

impl<F, R> Handler<(Request,)> for SyncFn1<F> where F: Fn(Request) -> R, R: IntoResponse {
    open spec fn accepts(&self, req: Request) -> bool {
        call_requires(self.0, (req,))
    }

    open spec fn answers(
        &self,
        req: Request,
        resp: types::ResponseView,
        held: Option<u32>,
    ) -> bool {
        exists|x: R| #[trigger]
            call_ensures(self.0, (req,), x) && resp == x.as_response() && held == x.response_block()
    }

    fn call(&self, req: Request) -> (r: Response) {
        let x: R = (self.0)(req);
        assert(call_ensures(self.0, (req,), x));
        x.into_response()
    }
}

} // verus!
