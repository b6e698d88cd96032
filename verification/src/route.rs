//! Which requests the viewer answers with its page.
use vstd::prelude::*;
use crate::text::str_eq;

verus! {

/// What a request gets: the page, or a "not found".
#[derive(Clone, Copy, Debug, PartialEq, Eq, Structural)]
pub enum Route {
    Page,
    NotFound,
}

/// The route of a request target: the page for `/` exactly, nothing for any
/// other target (a query string included).
pub open spec fn route_of(url: Seq<char>) -> Route {
    if url == seq!['/'] {
        Route::Page
    } else {
        Route::NotFound
    }
}

/// Chooses the answer to a request for the target `url`.
pub fn route(url: &str) -> (res: Route)
    ensures
        res == route_of(url@),
{
    let root = "/";
    proof {
        reveal_strlit("/");
    }
    assert(root@ =~= seq!['/']);
    if str_eq(url, root) {
        Route::Page
    } else {
        Route::NotFound
    }
}

impl Route {
    /// The HTTP status of the answer.
    pub fn status(&self) -> (res: u16)
        ensures
            res == (match self {
                Route::Page => 200u16,
                Route::NotFound => 404u16,
            }),
    {
        match self {
            Route::Page => 200,
            Route::NotFound => 404,
        }
    }
}

} // verus!
