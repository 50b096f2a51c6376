//! The routing table and its dispatch rule: a request's path is split
//! into non-empty segments; the first registered route whose path shape
//! matches wins, independent of method. A wrong method on that route is
//! answered 405 at once; no path-shape match at all is answered 404.

use vstd::prelude::*;
use vstd::string::StrSliceExecFns;
use vstd::string::StringExecFns;
use crate::dog::DogController;
use crate::request::Request;
use crate::request::path_of;
use crate::response::Response;
use crate::strmap::StrMap;
use crate::strmap::keys_distinct;
use crate::strmap::lemma_insert_distinct;
use crate::strmap::lookup;
use crate::strmap::spec_insert;
use crate::text::find_char_index;
use crate::text::split_on_char;
use crate::text::split_parts;
use crate::text::str_eq;
use crate::text::substr_string;

verus! {

/// The captured path parameters of one matched request.
pub struct RouteParams {
    pub params: StrMap,
}

impl RouteParams {
    /// The value captured for `key`, if any.
    pub fn get(&self, key: &str) -> (r: Option<&str>)
        ensures
            match r {
                Some(v) => lookup(self.params@, key@) == Some(v@),
                None => lookup(self.params@, key@) is None,
            },
    {
        self.params.get(key)
    }
}

/// The closed set of handlers a route can dispatch to.
#[derive(Clone, Copy)]
pub enum Handler {
    DogGetAll,
    DogCreate,
    DogGetOne,
    DogUpdate,
    DogDelete,
}

/// One registered route: method, path pattern, handler. A pattern segment
/// beginning with `:` captures the request's segment under that name.
pub struct Route {
    pub method: String,
    pub path: Vec<String>,
    pub handler: Handler,
}

impl Route {
    pub fn new(method: String, path: Vec<String>, handler: Handler) -> (r: Route)
        ensures
            r.method == method,
            r.path == path,
            r.handler == handler,
    {
        Route { method, path, handler }
    }
}

/// A capture segment: non-empty and starting with `:`.
pub open spec fn is_capture(seg: Seq<char>) -> bool {
    seg.len() > 0 && seg[0] == ':'
}

/// A pattern matches a path when the segment counts agree and every
/// literal segment equals the request's; captures match anything.
pub open spec fn shape_matches(pattern: Seq<Seq<char>>, segs: Seq<Seq<char>>) -> bool {
    pattern.len() == segs.len() && forall|i: int|
        0 <= i < pattern.len() ==> is_capture(#[trigger] pattern[i]) || pattern[i] == segs[i]
}

/// The parameters captured by the first `n` pattern segments.
pub open spec fn params_prefix(pattern: Seq<Seq<char>>, segs: Seq<Seq<char>>, n: int) -> Seq<
    (Seq<char>, Seq<char>),
>
    decreases n,
{
    if n <= 0 {
        Seq::empty()
    } else {
        let prev = params_prefix(pattern, segs, n - 1);
        if is_capture(pattern[n - 1]) {
            spec_insert(prev, pattern[n - 1].skip(1), segs[n - 1])
        } else {
            prev
        }
    }
}

/// The parameters a matching pattern captures from a path.
pub open spec fn spec_params(pattern: Seq<Seq<char>>, segs: Seq<Seq<char>>) -> Seq<
    (Seq<char>, Seq<char>),
> {
    params_prefix(pattern, segs, pattern.len() as int)
}

/// Whether one route's path shape matches the request segments.
pub open spec fn route_matches(r: Route, segs: Seq<Seq<char>>) -> bool {
    shape_matches(r.path.deep_view(), segs)
}

/// Index of the first registered route whose path shape matches.
pub open spec fn first_match(routes: Seq<Route>, segs: Seq<Seq<char>>) -> Option<int>
    decreases routes.len(),
{
    if routes.len() == 0 {
        None
    } else if route_matches(routes[0], segs) {
        Some(0)
    } else {
        match first_match(routes.skip(1), segs) {
            None => None,
            Some(j) => Some(j + 1),
        }
    }
}

/// `first_match` returns the smallest matching index, if any.
pub proof fn lemma_first_match_is_first(routes: Seq<Route>, segs: Seq<Seq<char>>)
    ensures
        match first_match(routes, segs) {
            Some(i) => 0 <= i < routes.len() && route_matches(routes[i], segs) && forall|j: int|
                0 <= j < i ==> !route_matches(#[trigger] routes[j], segs),
            None => forall|j: int| 0 <= j < routes.len() ==> !route_matches(
                #[trigger] routes[j],
                segs,
            ),
        },
    decreases routes.len(),
{
    if routes.len() > 0 && !route_matches(routes[0], segs) {
        lemma_first_match_is_first(routes.skip(1), segs);
        match first_match(routes.skip(1), segs) {
            Some(j) => {
                assert(routes.skip(1)[j] == routes[j + 1]);
                assert forall|m: int| 0 <= m < j + 1 implies !route_matches(
                    #[trigger] routes[m],
                    segs,
                ) by {
                    if m > 0 {
                        assert(routes.skip(1)[m - 1] == routes[m]);
                    }
                }
            },
            None => {
                assert forall|m: int| 0 <= m < routes.len() implies !route_matches(
                    #[trigger] routes[m],
                    segs,
                ) by {
                    if m > 0 {
                        assert(routes.skip(1)[m - 1] == routes[m]);
                    }
                }
            },
        }
    }
}

/// First-registered route wins: when route `i`'s path shape matches the
/// request's segments and no earlier route's does, dispatch reaches
/// exactly route `i`. Together with `route`'s contract: if that route's
/// method also matches, its handler's output is returned verbatim, and
/// with a differing method the answer is 405 at once.
pub proof fn lemma_first_matching_route_wins(routes: Seq<Route>, segs: Seq<Seq<char>>, i: int)
    requires
        0 <= i < routes.len(),
        route_matches(routes[i], segs),
        forall|j: int| 0 <= j < i ==> !route_matches(#[trigger] routes[j], segs),
    ensures
        first_match(routes, segs) == Some(i),
{
    lemma_first_match_is_first(routes, segs);
    match first_match(routes, segs) {
        Some(k) => {
            assert(k <= i);
            assert(k >= i);
        },
        None => {
            assert(route_matches(routes[i], segs));
        },
    }
}

/// A request matching some route's path shape never resolves to 404, and
/// one matching no route's path shape always does. Together with
/// `route`'s contract: a shape match under a wrong method yields 405,
/// and no shape match at all yields 404.
pub proof fn lemma_shape_match_resolution(routes: Seq<Route>, segs: Seq<Seq<char>>)
    ensures
        (exists|i: int| 0 <= i < routes.len() && route_matches(#[trigger] routes[i], segs))
            <==> first_match(routes, segs) is Some,
{
    lemma_first_match_is_first(routes, segs);
    if exists|i: int| 0 <= i < routes.len() && route_matches(#[trigger] routes[i], segs) {
        let i = choose|i: int|
            0 <= i < routes.len() && route_matches(#[trigger] routes[i], segs);
        if first_match(routes, segs) is None {
            assert(!route_matches(routes[i], segs));
        }
    }
}

/// The non-empty segments of a request URL's path part.
pub open spec fn segments_of(url: Seq<char>) -> Seq<Seq<char>> {
    split_parts(path_of(url), '/')
}

/// Match one pattern against the path segments, capturing parameters.
pub fn path_match_params(pattern: &Vec<String>, segments: &Vec<String>) -> (r: Option<RouteParams>)
    ensures
        r is Some <==> shape_matches(pattern.deep_view(), segments.deep_view()),
        match r {
            Some(p) => p.params@ == spec_params(pattern.deep_view(), segments.deep_view())
                && keys_distinct(p.params@),
            None => true,
        },
{
    let ghost pv = pattern.deep_view();
    let ghost sv = segments.deep_view();
    let n = pattern.len();
    if segments.len() != n {
        return None;
    }
    let mut params = StrMap::new();
    let mut i: usize = 0;
    proof {
        assert(params@ =~= params_prefix(pv, sv, 0));
    }
    while i < n
        invariant
            n == pv.len(),
            n == sv.len(),
            n == pattern@.len(),
            n == segments@.len(),
            pv == pattern.deep_view(),
            sv == segments.deep_view(),
            i <= n,
            forall|j: int| 0 <= j < i ==> is_capture(#[trigger] pv[j]) || pv[j] == sv[j],
            params@ == params_prefix(pv, sv, i as int),
            keys_distinct(params@),
        decreases n - i,
    {
        let seg = pattern[i].as_str();
        let seg_len = seg.unicode_len();
        proof {
            assert(pattern@[i as int].deep_view() == pv[i as int]);
            assert(segments@[i as int].deep_view() == sv[i as int]);
        }
        if seg_len > 0 && seg.get_char(0) == ':' {
            let name = substr_string(seg, 1, seg_len);
            proof {
                assert(name@ =~= pv[i as int].skip(1));
                lemma_insert_distinct(params@, name@, sv[i as int]);
            }
            params.insert(name, segments[i].clone());
        } else if !str_eq(seg, segments[i].as_str()) {
            proof {
                assert(!(is_capture(pv[i as int]) || pv[i as int] == sv[i as int]));
            }
            return None;
        }
        i += 1;
    }
    Some(RouteParams { params })
}

/// How the router resolved a request.
pub enum Resolution {
    /// No route's path shape matched.
    NotFound,
    /// The first shape-matching route is registered under another method.
    MethodNotAllowed,
    /// The first shape-matching route also matches the method.
    Matched { idx: usize, params: RouteParams },
}

/// Resolve a request against the table: find the first route whose path
/// shape matches the request's segments, then compare methods.
pub fn resolve(routes: &Vec<Route>, request: &Request) -> (r: Resolution)
    ensures
        ({
            let segs = segments_of(request.url@);
            let fm = first_match(routes@, segs);
            &&& (r is NotFound <==> fm is None)
            &&& (r is MethodNotAllowed <==> fm is Some && routes@[fm.unwrap()].method@
                != request.method@)
            &&& (r is Matched ==> {
                &&& fm == Some(r->idx as int)
                &&& routes@[r->idx as int].method@ == request.method@
                &&& r->params.params@ == spec_params(
                    routes@[r->idx as int].path.deep_view(),
                    segs,
                )
                &&& keys_distinct(r->params.params@)
            })
        }),
{
    let url = request.url.as_str();
    let path: String = match find_char_index(url, '?') {
        None => {
            proof {
                assert(path_of(request.url@) == request.url@);
            }
            String::from_str(url)
        },
        Some(i) => {
            proof {
                crate::text::lemma_find_char_is_first(url@, '?');
            }
            substr_string(url, 0, i)
        },
    };
    let segments = split_on_char(path.as_str(), '/');
    let ghost segs = segments_of(request.url@);
    proof {
        assert(segments.deep_view() == segs);
        lemma_first_match_is_first(routes@, segs);
    }
    let n = routes.len();
    let mut i: usize = 0;
    while i < n
        invariant
            n == routes@.len(),
            segs == segments_of(request.url@),
            segments.deep_view() == segs,
            forall|j: int| 0 <= j < i ==> !route_matches(#[trigger] routes@[j], segs),
        decreases n - i,
    {
        match path_match_params(&routes[i].path, &segments) {
            Some(params) => {
                proof {
                    lemma_first_match_is_first(routes@, segs);
                    assert(route_matches(routes@[i as int], segs));
                    match first_match(routes@, segs) {
                        Some(k) => {
                            assert(k <= i);
                            assert(k >= i);
                        },
                        None => {},
                    }
                }
                if str_eq(routes[i].method.as_str(), request.method.as_str()) {
                    return Resolution::Matched { idx: i, params };
                } else {
                    return Resolution::MethodNotAllowed;
                }
            },
            None => {},
        }
        i += 1;
    }
    proof {
        lemma_first_match_is_first(routes@, segs);
        if first_match(routes@, segs) is Some {
            let k = first_match(routes@, segs).unwrap();
            assert(route_matches(routes@[k], segs));
        }
    }
    Resolution::NotFound
}

/// A response with one `Content-Type: text/plain` header.
pub open spec fn is_plain_response(r: Response, code: u16, body: Seq<char>) -> bool {
    &&& r.status_code == code
    &&& r.headers@ == seq![("Content-Type"@, "text/plain"@)]
    &&& r.body@ == body
}

/// What each handler returns: every handler in the closed set answers
/// with a plain-text body, ignoring request and parameters.
pub open spec fn handler_gives(h: Handler, resp: Response) -> bool {
    match h {
        Handler::DogCreate => is_plain_response(resp, 201, "Woof"@),
        _ => is_plain_response(resp, 200, "Woof"@),
    }
}

/// Run the resolved handler.
pub fn apply_handler(h: Handler, request: &Request, params: &RouteParams) -> (resp: Response)
    ensures
        handler_gives(h, resp),
{
    match h {
        Handler::DogGetAll => DogController::get_all(request, params),
        Handler::DogCreate => DogController::create(request, params),
        Handler::DogGetOne => DogController::get_one(request, params),
        Handler::DogUpdate => DogController::update(request, params),
        Handler::DogDelete => DogController::delete(request, params),
    }
}

/// The 405 response: first shape match registered under another method.
pub fn method_not_allowed() -> (r: Response)
    ensures
        is_plain_response(r, 405, "Method Not Allowed"@),
{
    let mut headers = StrMap::new();
    headers.insert(String::from_str("Content-Type"), String::from_str("text/plain"));
    proof {
        assert(headers@ =~= seq![("Content-Type"@, "text/plain"@)]);
    }
    Response { status_code: 405, headers, body: String::from_str("Method Not Allowed") }
}

/// The 404 response: no route's path shape matched.
pub fn not_found() -> (r: Response)
    ensures
        is_plain_response(r, 404, "Not Found"@),
{
    let mut headers = StrMap::new();
    headers.insert(String::from_str("Content-Type"), String::from_str("text/plain"));
    proof {
        assert(headers@ =~= seq![("Content-Type"@, "text/plain"@)]);
    }
    Response { status_code: 404, headers, body: String::from_str("Not Found") }
}

/// Dispatch a request. The first-registered route whose path shape
/// matches decides: its handler runs when the method also matches, a 405
/// is returned when it does not, and a 404 when no shape matches at all.
pub fn route(routes: &Vec<Route>, request: &Request) -> (resp: Response)
    ensures
        ({
            let segs = segments_of(request.url@);
            match first_match(routes@, segs) {
                None => is_plain_response(resp, 404, "Not Found"@),
                Some(i) => if routes@[i].method@ == request.method@ {
                    handler_gives(routes@[i].handler, resp)
                } else {
                    is_plain_response(resp, 405, "Method Not Allowed"@)
                },
            }
        }),
{
    proof {
        lemma_first_match_is_first(routes@, segments_of(request.url@));
    }
    match resolve(routes, request) {
        Resolution::NotFound => not_found(),
        Resolution::MethodNotAllowed => method_not_allowed(),
        Resolution::Matched { idx, params } => {
            let h = routes[idx].handler;
            apply_handler(h, request, &params)
        },
    }
}

} // verus!
