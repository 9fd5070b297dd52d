use ic_vectune::http::{http_request, route, search_response, HttpOutcome, HttpRequest, HttpRoute};

fn request(method: &str, url: &str, body: &[u8]) -> HttpRequest {
    HttpRequest {
        method: method.to_string(),
        url: url.to_string(),
        headers: vec![],
        body: body.to_vec(),
    }
}

fn respond(method: &str, url: &str, body: &[u8]) -> (u16, Vec<u8>, usize) {
    match http_request(&request(method, url, body)) {
        Some(HttpOutcome::Respond(resp)) => (resp.status_code, resp.body, resp.headers.len()),
        Some(HttpOutcome::Search) => panic!("expected a fixed response"),
        None => panic!("expected a parsed url"),
    }
}

#[test]
fn options_on_any_path_is_ok_with_cors_headers() {
    let (code, body, n_headers) = respond("OPTIONS", "/anything/at/all", b"");
    assert_eq!(code, 200);
    assert!(body.is_empty());
    assert_eq!(n_headers, 3);
}

#[test]
fn cors_headers_are_the_three_expected() {
    let resp = search_response(Ok(vec![1, 2, 3]));
    assert_eq!(resp.status_code, 200);
    assert_eq!(resp.body, vec![1, 2, 3]);
    assert_eq!(
        resp.headers,
        vec![
            ("Access-Control-Allow-Origin".to_string(), "*".to_string()),
            ("Access-Control-Allow-Methods".to_string(), "GET, POST, HEAD, OPTIONS".to_string()),
            ("Access-Control-Allow-Headers".to_string(), "Content-Type".to_string()),
        ]
    );
}

#[test]
fn root_path_is_not_found() {
    let (code, body, n_headers) = respond("GET", "/", b"");
    assert_eq!(code, 404);
    assert_eq!(body, b"404 Not found :".to_vec());
    assert_eq!(n_headers, 3);
}

#[test]
fn body_that_is_no_query_is_answered_400_with_the_message() {
    let resp = search_response(Err(b"\"JSON parsing error\"".to_vec()));
    assert_eq!(resp.status_code, 400);
    assert_eq!(resp.body, b"\"JSON parsing error\"".to_vec());
    assert_eq!(resp.headers.len(), 3);
    assert_eq!(resp.headers[0].0, "Access-Control-Allow-Origin");
}

#[test]
fn unknown_path_is_not_found() {
    let (code, body, _) = respond("POST", "/other", b"[]");
    assert_eq!(code, 404);
    assert_eq!(body, b"404 Not found :".to_vec());
}

#[test]
fn search_without_body_is_bad_request() {
    let (code, body, _) = respond("POST", "/search", b"");
    assert_eq!(code, 400);
    assert_eq!(body, b"Body must be 384 long float32 array".to_vec());
}

#[test]
fn search_with_body_is_handed_to_the_query() {
    let out = http_request(&request("POST", "/search", b"[[0.5],1,10]"));
    assert!(matches!(out, Some(HttpOutcome::Search)));
}

#[test]
fn query_string_is_not_part_of_the_path() {
    let out = http_request(&request("POST", "/search?x=1#frag", b"[[0.5],1,10]"));
    assert!(matches!(out, Some(HttpOutcome::Search)));
    let (code, _, _) = respond("GET", "/searching?q=1", b"x");
    assert_eq!(code, 404);
}

#[test]
fn url_that_does_not_parse_gives_no_outcome() {
    // A colon with no number behind it makes the whole text unparsable.
    let out = http_request(&request("GET", ":notaport/", b""));
    assert!(out.is_none());
}

#[test]
fn route_looks_at_method_first() {
    assert_eq!(route(&"OPTIONS".to_string(), &"/search".to_string(), 5), HttpRoute::Preflight);
    assert_eq!(route(&"GET".to_string(), &"/".to_string(), 5), HttpRoute::NotFound);
    assert_eq!(route(&"GET".to_string(), &"/x".to_string(), 0), HttpRoute::NotFound);
    assert_eq!(route(&"GET".to_string(), &"/search".to_string(), 0), HttpRoute::EmptyBody);
    assert_eq!(route(&"GET".to_string(), &"/search".to_string(), 1), HttpRoute::Search);
}
