//! The HTTP surface: which response a request gets before any query runs,
//! and the fixed responses themselves.

use vstd::prelude::*;
use vstd::string::*;

verus! {

/// One header line: name and value.
pub type HeaderField = (String, String);

/// An incoming request as the host hands it over.
pub struct HttpRequest {
    pub method: String,
    pub url: String,
    pub headers: Vec<HeaderField>,
    pub body: Vec<u8>,
}

/// An outgoing response.
pub struct HttpResponse {
    pub status_code: u16,
    pub headers: Vec<HeaderField>,
    pub body: Vec<u8>,
}

/// What a response holds, as plain values.
pub struct HttpResponseView {
    pub status_code: u16,
    pub headers: Seq<(Seq<char>, Seq<char>)>,
    pub body: Seq<u8>,
}

/// The header lines of `headers` as character sequences.
pub open spec fn header_views(headers: Seq<HeaderField>) -> Seq<(Seq<char>, Seq<char>)> {
    Seq::new(headers.len(), |i: int| (headers[i].0@, headers[i].1@))
}

impl View for HttpResponse {
    type V = HttpResponseView;

    open spec fn view(&self) -> HttpResponseView {
        HttpResponseView {
            status_code: self.status_code,
            headers: header_views(self.headers@),
            body: self.body@,
        }
    }
}

/// The decision taken on a request from its method, path and body length.
#[derive(Clone, Copy, Debug, PartialEq, Eq, Structural)]
pub enum HttpRoute {
    /// `OPTIONS` on any path: answered 200 with an empty body.
    Preflight,
    /// Any path but `/search`: answered 404.
    NotFound,
    /// `/search` without a body: answered 400.
    EmptyBody,
    /// `/search` with a body: the body is a query to run.
    Search,
}

/// What the caller has to do with a request.
pub enum HttpOutcome {
    /// Send this response as it is.
    Respond(HttpResponse),
    /// Parse the body as a query, run it, and wrap the outcome with
    /// [`search_response`].
    Search,
}

/// The cross-origin headers that every response carries.
pub open spec fn cors_header_views() -> Seq<(Seq<char>, Seq<char>)> {
    seq![
        ("Access-Control-Allow-Origin"@, "*"@),
        ("Access-Control-Allow-Methods"@, "GET, POST, HEAD, OPTIONS"@),
        ("Access-Control-Allow-Headers"@, "Content-Type"@),
    ]
}

/// The route of a request: the method is looked at first, then the path,
/// then whether there is a body.
pub open spec fn spec_route(method: Seq<char>, path: Seq<char>, body_len: nat) -> HttpRoute {
    if method == "OPTIONS"@ {
        HttpRoute::Preflight
    } else if path != "/search"@ {
        HttpRoute::NotFound
    } else if body_len == 0 {
        HttpRoute::EmptyBody
    } else {
        HttpRoute::Search
    }
}

/// The fixed response of a route, or `None` for a query.
pub open spec fn spec_fixed_response(route: HttpRoute) -> Option<HttpResponseView> {
    match route {
        HttpRoute::Preflight => Some(
            HttpResponseView { status_code: 200, headers: cors_header_views(), body: Seq::empty() },
        ),
        HttpRoute::NotFound => Some(
            HttpResponseView {
                status_code: 404,
                headers: cors_header_views(),
                body: "404 Not found :".spec_bytes(),
            },
        ),
        HttpRoute::EmptyBody => Some(
            HttpResponseView {
                status_code: 400,
                headers: cors_header_views(),
                body: "Body must be 384 long float32 array".spec_bytes(),
            },
        ),
        HttpRoute::Search => None,
    }
}

/// The path that `url::Url::parse` and `Url::path` give for a text; `None`
/// where the text does not parse as an absolute URL.
pub uninterp spec fn url_path(input: Seq<char>) -> Option<Seq<char>>;

/// `url::Url::parse` followed by `Url::path`: the percent-encoded path of
/// the parsed URL, or `None` where the parser rejects the text. Nothing is
/// claimed of the path but that it is a function of the text.
#[verifier::external_body]
fn parse_url_path(input: &String) -> (r: Option<String>)
    ensures
        r matches Some(p) ==> url_path(input@) == Some(p@),
        r is None ==> url_path(input@) is None,
{
    match url::Url::parse(input.as_str()) {
        Ok(parsed) => Some(parsed.path().to_string()),
        Err(_) => None,
    }
}

/// The three cross-origin headers.
pub fn cors_headers() -> (r: Vec<HeaderField>)
    ensures
        header_views(r@) == cors_header_views(),
{
    let mut headers: Vec<HeaderField> = Vec::new();
    headers.push(("Access-Control-Allow-Origin".to_owned(), "*".to_owned()));
    headers.push(("Access-Control-Allow-Methods".to_owned(), "GET, POST, HEAD, OPTIONS".to_owned()));
    headers.push(("Access-Control-Allow-Headers".to_owned(), "Content-Type".to_owned()));
    assert(header_views(headers@) =~= cors_header_views());
    headers
}

/// Decides the route of a request from its method, its parsed path and the
/// length of its body.
pub fn route(method: &String, path: &String, body_len: usize) -> (r: HttpRoute)
    ensures
        r == spec_route(method@, path@, body_len as nat),
{
    let options: String = "OPTIONS".to_owned();
    let search: String = "/search".to_owned();
    if *method == options {
        HttpRoute::Preflight
    } else if !(*path == search) {
        HttpRoute::NotFound
    } else if body_len == 0 {
        HttpRoute::EmptyBody
    } else {
        HttpRoute::Search
    }
}

/// The response that a route is answered with on the spot; `None` for a query.
pub fn fixed_response(route: HttpRoute) -> (r: Option<HttpResponse>)
    ensures
        r is Some <==> route != HttpRoute::Search,
        r matches Some(resp) ==> Some(resp@) == spec_fixed_response(route),
{
    match route {
        HttpRoute::Preflight => Some(
            HttpResponse { status_code: 200, headers: cors_headers(), body: Vec::new() },
        ),
        HttpRoute::NotFound => Some(
            HttpResponse {
                status_code: 404,
                headers: cors_headers(),
                body: "404 Not found :".as_bytes_vec(),
            },
        ),
        HttpRoute::EmptyBody => Some(
            HttpResponse {
                status_code: 400,
                headers: cors_headers(),
                body: "Body must be 384 long float32 array".as_bytes_vec(),
            },
        ),
        HttpRoute::Search => None,
    }
}

/// The response to a request on `/search` with a body, as plain values:
/// 200 with the serialized hits where the body was a query and the query
/// ran, 400 with a message where the body was no query.
pub open spec fn spec_search_response(outcome: Result<Seq<u8>, Seq<u8>>) -> HttpResponseView {
    match outcome {
        Ok(hits) => HttpResponseView {
            status_code: 200,
            headers: cors_header_views(),
            body: hits,
        },
        Err(message) => HttpResponseView {
            status_code: 400,
            headers: cors_header_views(),
            body: message,
        },
    }
}

/// What the parsing and running of a query gave, as plain values.
pub open spec fn outcome_view(outcome: Result<Vec<u8>, Vec<u8>>) -> Result<Seq<u8>, Seq<u8>> {
    match outcome {
        Ok(hits) => Ok(hits@),
        Err(message) => Err(message@),
    }
}

/// The response to a request on `/search` with a body: `Ok` holds the
/// serialized hits of the query that the body was, answered 200; `Err`
/// holds the message for a body that was no query, answered 400. Both
/// carry the cross-origin headers.
pub fn search_response(outcome: Result<Vec<u8>, Vec<u8>>) -> (r: HttpResponse)
    ensures
        r@ == spec_search_response(outcome_view(outcome)),
{
    match outcome {
        Ok(hits) => HttpResponse { status_code: 200, headers: cors_headers(), body: hits },
        Err(message) => HttpResponse { status_code: 400, headers: cors_headers(), body: message },
    }
}

/// What is owed on a request whose URL has the path `path`.
pub open spec fn spec_outcome(req: HttpRequest, path: Seq<char>) -> Option<HttpResponseView> {
    spec_fixed_response(spec_route(req.method@, path, req.body@.len()))
}

/// Handles a request up to the point where a query has to run. The request's
/// URL is read as a path on a local origin. Returns `None` where that text
/// is no URL; otherwise either the response to send or the order to run the
/// body as a query.
pub fn http_request(req: &HttpRequest) -> (r: Option<HttpOutcome>)
    ensures
        r is None <==> url_path("https://localhost"@ + req.url@) is None,
        r matches Some(HttpOutcome::Respond(resp)) ==> {
            &&& url_path("https://localhost"@ + req.url@) matches Some(p)
            &&& spec_outcome(*req, p) == Some(resp@)
        },
        r matches Some(HttpOutcome::Search) ==> {
            &&& url_path("https://localhost"@ + req.url@) matches Some(p)
            &&& spec_route(req.method@, p, req.body@.len()) == HttpRoute::Search
        },
{
    let full: String = "https://localhost".to_owned().concat(req.url.as_str());
    match parse_url_path(&full) {
        None => None,
        Some(path) => {
            let decided: HttpRoute = route(&req.method, &path, req.body.len());
            match fixed_response(decided) {
                Some(resp) => Some(HttpOutcome::Respond(resp)),
                None => Some(HttpOutcome::Search),
            }
        },
    }
}

} // verus!
