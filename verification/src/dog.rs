//! The dog domain: a repository and service with fixed behaviour, and a
//! controller exposing the usual five routes.

use vstd::prelude::*;
use vstd::string::StringExecFns;
use crate::request::Request;
use crate::response::Response;
use crate::router::Handler;
use crate::router::Route;
use crate::router::RouteParams;
use crate::router::handler_gives;
use crate::router::is_plain_response;
use crate::strmap::StrMap;

verus! {

pub struct DogRepo;

impl DogRepo {
    pub fn new() -> DogRepo {
        DogRepo
    }
}

pub struct DogService {
    _repo: DogRepo,
}

impl DogService {
    pub fn new(repo: DogRepo) -> DogService {
        DogService { _repo: repo }
    }

    /// What every dog endpoint answers.
    pub fn speak(&self) -> (r: String)
        ensures
            r@ == "Woof"@,
    {
        String::from_str("Woof")
    }
}

/// A fresh `Content-Type: text/plain` header map.
fn plain_headers() -> (r: StrMap)
    ensures
        r@ == seq![("Content-Type"@, "text/plain"@)],
{
    let mut headers = StrMap::new();
    headers.insert(String::from_str("Content-Type"), String::from_str("text/plain"));
    proof {
        assert(headers@ =~= seq![("Content-Type"@, "text/plain"@)]);
    }
    headers
}

pub struct DogController;

impl DogController {
    /// The five dog routes, in registration order.
    pub fn routes() -> (r: Vec<Route>)
        ensures
            r@.len() == 5,
            r@[0].method@ == "GET"@ && r@[0].path.deep_view() == seq!["dog"@] && r@[0].handler
                is DogGetAll,
            r@[1].method@ == "POST"@ && r@[1].path.deep_view() == seq!["dog"@] && r@[1].handler
                is DogCreate,
            r@[2].method@ == "GET"@ && r@[2].path.deep_view() == seq!["dog"@, ":id"@]
                && r@[2].handler is DogGetOne,
            r@[3].method@ == "PUT"@ && r@[3].path.deep_view() == seq!["dog"@, ":id"@]
                && r@[3].handler is DogUpdate,
            r@[4].method@ == "DELETE"@ && r@[4].path.deep_view() == seq!["dog"@, ":id"@]
                && r@[4].handler is DogDelete,
    {
        let mut r: Vec<Route> = Vec::new();
        let p_dog = vec![String::from_str("dog")];
        let p_dog_id = vec![String::from_str("dog"), String::from_str(":id")];
        proof {
            assert(p_dog.deep_view() =~= seq!["dog"@]);
            assert(p_dog_id.deep_view() =~= seq!["dog"@, ":id"@]);
        }
        r.push(Route::new(String::from_str("GET"), clone_path(&p_dog), Handler::DogGetAll));
        r.push(Route::new(String::from_str("POST"), clone_path(&p_dog), Handler::DogCreate));
        r.push(Route::new(String::from_str("GET"), clone_path(&p_dog_id), Handler::DogGetOne));
        r.push(Route::new(String::from_str("PUT"), clone_path(&p_dog_id), Handler::DogUpdate));
        r.push(Route::new(String::from_str("DELETE"), p_dog_id, Handler::DogDelete));
        r
    }

    pub fn get_all(_request: &Request, _params: &RouteParams) -> (r: Response)
        ensures
            is_plain_response(r, 200, "Woof"@),
            handler_gives(Handler::DogGetAll, r),
    {
        let service = DogService::new(DogRepo::new());
        let body = service.speak();
        Response { status_code: 200, headers: plain_headers(), body }
    }

    pub fn get_one(_request: &Request, params: &RouteParams) -> (r: Response)
        ensures
            is_plain_response(r, 200, "Woof"@),
            handler_gives(Handler::DogGetOne, r),
    {
        let service = DogService::new(DogRepo::new());
        let _id = match params.get("id") {
            Some(v) => v,
            None => "",
        };
        let body = service.speak();
        Response { status_code: 200, headers: plain_headers(), body }
    }

    pub fn create(_request: &Request, _params: &RouteParams) -> (r: Response)
        ensures
            is_plain_response(r, 201, "Woof"@),
            handler_gives(Handler::DogCreate, r),
    {
        let service = DogService::new(DogRepo::new());
        let body = service.speak();
        Response { status_code: 201, headers: plain_headers(), body }
    }

    pub fn update(_request: &Request, params: &RouteParams) -> (r: Response)
        ensures
            is_plain_response(r, 200, "Woof"@),
            handler_gives(Handler::DogUpdate, r),
    {
        let service = DogService::new(DogRepo::new());
        let _id = match params.get("id") {
            Some(v) => v,
            None => "",
        };
        let body = service.speak();
        Response { status_code: 200, headers: plain_headers(), body }
    }

    pub fn delete(_request: &Request, params: &RouteParams) -> (r: Response)
        ensures
            is_plain_response(r, 200, "Woof"@),
            handler_gives(Handler::DogDelete, r),
    {
        let service = DogService::new(DogRepo::new());
        let _id = match params.get("id") {
            Some(v) => v,
            None => "",
        };
        let body = service.speak();
        Response { status_code: 200, headers: plain_headers(), body }
    }
}

/// An owned copy of a path pattern.
fn clone_path(p: &Vec<String>) -> (r: Vec<String>)
    ensures
        r.deep_view() == p.deep_view(),
{
    let mut r: Vec<String> = Vec::new();
    let n = p.len();
    let mut i: usize = 0;
    while i < n
        invariant
            n == p@.len(),
            i <= n,
            r@.len() == i,
            forall|j: int| 0 <= j < i ==> r@[j]@ == #[trigger] p@[j]@,
        decreases n - i,
    {
        r.push(p[i].clone());
        i += 1;
    }
    proof {
        assert(r.deep_view() =~= p.deep_view());
    }
    r
}

/// The process-wide route table, registered once at startup.
pub fn init_routes() -> (r: Vec<Route>)
    ensures
        r@.len() == 5,
        r@[0].method@ == "GET"@ && r@[0].path.deep_view() == seq!["dog"@] && r@[0].handler
            is DogGetAll,
        r@[1].method@ == "POST"@ && r@[1].path.deep_view() == seq!["dog"@] && r@[1].handler
            is DogCreate,
        r@[2].method@ == "GET"@ && r@[2].path.deep_view() == seq!["dog"@, ":id"@] && r@[2].handler
            is DogGetOne,
        r@[3].method@ == "PUT"@ && r@[3].path.deep_view() == seq!["dog"@, ":id"@] && r@[3].handler
            is DogUpdate,
        r@[4].method@ == "DELETE"@ && r@[4].path.deep_view() == seq!["dog"@, ":id"@]
            && r@[4].handler is DogDelete,
{
    DogController::routes()
}

} // verus!
