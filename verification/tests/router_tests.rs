use minihttp::dog::init_routes;
use minihttp::request::Request;
use minihttp::response::Response;
use minihttp::router::{path_match_params, resolve, route, Handler, Resolution, Route};
use minihttp::strmap::StrMap;

fn request(method: &str, url: &str) -> Request {
    Request {
        method: method.to_string(),
        url: url.to_string(),
        headers: StrMap::new(),
        body: String::new(),
    }
}

fn body_of(r: &Response) -> String {
    r.body.clone()
}

#[test]
fn registered_route_passes_handler_output_through() {
    let routes = init_routes();
    let resp = route(&routes, &request("GET", "/dog"));
    assert_eq!(resp.status_code, 200);
    assert_eq!(body_of(&resp), "Woof");
    assert_eq!(resp.headers.get("Content-Type"), Some("text/plain"));
}

#[test]
fn capture_route_matches_any_segment() {
    let routes = init_routes();
    let resp = route(&routes, &request("GET", "/dog/42"));
    assert_eq!(resp.status_code, 200);
    assert_eq!(body_of(&resp), "Woof");
}

#[test]
fn first_shape_match_decides_method_check() {
    // The first route whose path shape matches (GET /dog) wins even for a
    // POST, so the later POST /dog registration is answered 405.
    let routes = init_routes();
    let resp = route(&routes, &request("POST", "/dog"));
    assert_eq!(resp.status_code, 405);
    assert_eq!(body_of(&resp), "Method Not Allowed");
}

#[test]
fn wrong_method_on_matching_shape_yields_405_never_404() {
    let routes = init_routes();
    let resp = route(&routes, &request("PATCH", "/dog/7"));
    assert_eq!(resp.status_code, 405);
}

#[test]
fn no_shape_match_yields_404() {
    let routes = init_routes();
    let resp = route(&routes, &request("GET", "/cat"));
    assert_eq!(resp.status_code, 404);
    assert_eq!(body_of(&resp), "Not Found");
    let resp = route(&routes, &request("GET", "/dog/1/2"));
    assert_eq!(resp.status_code, 404);
}

#[test]
fn empty_segments_are_discarded() {
    let routes = init_routes();
    let resp = route(&routes, &request("GET", "//dog//"));
    assert_eq!(resp.status_code, 200);
    let resp = route(&routes, &request("GET", "dog"));
    assert_eq!(resp.status_code, 200);
}

#[test]
fn query_string_does_not_affect_matching() {
    let routes = init_routes();
    let resp = route(&routes, &request("GET", "/dog?name=rex&age=3"));
    assert_eq!(resp.status_code, 200);
}

#[test]
fn captured_param_reaches_the_handler() {
    let routes = vec![Route::new(
        "GET".to_string(),
        vec!["user".to_string(), ":id".to_string()],
        Handler::DogGetOne,
    )];
    let req = request("GET", "/user/123e4567-e89b-12d3-a456-426614174000");
    match resolve(&routes, &req) {
        Resolution::Matched { idx, params } => {
            assert_eq!(idx, 0);
            assert_eq!(params.get("id"), Some("123e4567-e89b-12d3-a456-426614174000"));
            assert_eq!(params.get("name"), None);
        }
        _ => panic!("expected a match"),
    }
}

#[test]
fn path_match_params_binds_captures() {
    let pattern = vec!["a".to_string(), ":x".to_string(), ":y".to_string()];
    let segments = vec!["a".to_string(), "1".to_string(), "2".to_string()];
    let params = path_match_params(&pattern, &segments).unwrap();
    assert_eq!(params.get("x"), Some("1"));
    assert_eq!(params.get("y"), Some("2"));
}

#[test]
fn path_match_params_rejects_wrong_shapes() {
    let pattern = vec!["a".to_string(), ":x".to_string()];
    assert!(path_match_params(&pattern, &vec!["a".to_string()]).is_none());
    assert!(path_match_params(&pattern, &vec!["b".to_string(), "1".to_string()]).is_none());
}

#[test]
fn empty_request_resolves_to_404_without_panicking() {
    let routes = init_routes();
    let resp = route(&routes, &Request::empty());
    assert_eq!(resp.status_code, 404);
}

#[test]
fn query_params_last_write_wins() {
    let req = request("GET", "/u?a=1&b=2&a=3&flag");
    let q = req.query_params();
    assert_eq!(q.get("a"), Some("3"));
    assert_eq!(q.get("b"), Some("2"));
    assert_eq!(q.get("flag"), Some(""));
    assert_eq!(q.get("c"), None);
}

#[test]
fn query_params_absent_query_is_empty() {
    let req = request("GET", "/u");
    let q = req.query_params();
    assert_eq!(q.len(), 0);
}
