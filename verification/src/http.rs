//! The decisions of the minimal HTTP/1.0-style responder that serves the
//! metrics: which path a request asks for, which route answers it, and the
//! text of the response. Reading the socket and writing the answer stay with
//! the caller.

use vstd::prelude::*;
use vstd::utf8::{decode_utf8, encode_utf8, valid_utf8};
use crate::text::{decimal, lines, push_decimal, split_lines, split_words, string_from_chars, to_chars, words};

verus! {

/// The characters `/`.
pub open spec fn root_path() -> Seq<char> {
    seq!['/']
}

/// The characters `/metrics`.
pub open spec fn metrics_path() -> Seq<char> {
    seq!['/', 'm', 'e', 't', 'r', 'i', 'c', 's']
}

/// The path that a request asks for: the second word of its first line (the
/// request line), or `/` where there is none. Every header is ignored.
pub open spec fn request_path_of(request: Seq<char>) -> Seq<char> {
    let ls = lines(request);
    if ls.len() == 0 {
        root_path()
    } else {
        let ws = words(ls[0]);
        if ws.len() < 2 {
            root_path()
        } else {
            ws[1]
        }
    }
}

/// The path that `request` asks for.
pub fn request_path(request: &str) -> (p: String)
    ensures
        p@ == request_path_of(request@),
{
    let text = to_chars(request);
    let ls = split_lines(&text);
    if ls.len() == 0 {
        let root = ['/'];
        let p = string_from_chars(root.as_slice());
        assert(p@ =~= root_path());
        return p;
    }
    assert(ls@[0]@ == lines(request@)[0]);
    let ws = split_words(ls[0].as_slice());
    if ws.len() < 2 {
        let root = ['/'];
        let p = string_from_chars(root.as_slice());
        assert(p@ =~= root_path());
        return p;
    }
    assert(ws@[1]@ == words(lines(request@)[0])[1]);
    string_from_chars(ws[1].as_slice())
}

/// The text that `String::from_utf8_lossy` makes of `bytes`: the decoded
/// text, with each ill-formed sequence replaced by U+FFFD.
pub uninterp spec fn utf8_lossy(bytes: Seq<u8>) -> Seq<char>;

/// `String::from_utf8_lossy(bytes)`, owned. Trusted: the result is the named
/// lossy decoding of `bytes`, and where the bytes are well-formed UTF-8 it is
/// exactly the text they encode, as the standard library documents.
#[verifier::external_body]
fn decode_lossy(bytes: &[u8]) -> (s: String)
    ensures
        s@ == utf8_lossy(bytes@),
        valid_utf8(bytes@) ==> s@ == decode_utf8(bytes@),
{
    String::from_utf8_lossy(bytes).into_owned()
}

/// The path that the raw request `bytes` ask for, the bytes decoded as
/// UTF-8 with ill-formed sequences replaced.
pub fn request_path_from_bytes(bytes: &[u8]) -> (p: String)
    ensures
        p@ == request_path_of(utf8_lossy(bytes@)),
        valid_utf8(bytes@) ==> p@ == request_path_of(decode_utf8(bytes@)),
{
    let text = decode_lossy(bytes);
    request_path(text.as_str())
}

/// What answers a request.
#[derive(Debug, Clone, Copy, PartialEq, Eq, Structural)]
pub enum Route {
    /// `/metrics`: the exposition text.
    Metrics,
    /// `/`: a page that links to `/metrics`.
    Index,
    /// Any other path.
    NotFound,
}

/// The route of a path.
pub open spec fn route_of(path: Seq<char>) -> Route {
    if path == metrics_path() {
        Route::Metrics
    } else if path == root_path() {
        Route::Index
    } else {
        Route::NotFound
    }
}

/// Whether `a` and `b` hold the same characters.
fn chars_equal(a: &[char], b: &[char]) -> (r: bool)
    ensures
        r == (a@ == b@),
{
    if a.len() != b.len() {
        return false;
    }
    let n = a.len();
    for i in 0..n
        invariant
            n == a@.len(),
            n == b@.len(),
            forall|j: int| 0 <= j < i ==> a@[j] == b@[j],
    {
        if a[i] != b[i] {
            return false;
        }
    }
    assert(a@ =~= b@);
    true
}

/// The route that answers `path`.
pub fn route(path: &str) -> (r: Route)
    ensures
        r == route_of(path@),
{
    let p = to_chars(path);
    let metrics = ['/', 'm', 'e', 't', 'r', 'i', 'c', 's'];
    let root = ['/'];
    assert(metrics@ =~= metrics_path());
    assert(root@ =~= root_path());
    if chars_equal(p.as_slice(), metrics.as_slice()) {
        Route::Metrics
    } else if chars_equal(p.as_slice(), root.as_slice()) {
        Route::Index
    } else {
        Route::NotFound
    }
}

/// The status line's status, the content type and the body of a response.
pub struct Response {
    pub status: String,
    pub content_type: String,
    pub body: String,
}

impl View for Response {
    type V = (Seq<char>, Seq<char>, Seq<char>);

    open spec fn view(&self) -> (Seq<char>, Seq<char>, Seq<char>) {
        (self.status@, self.content_type@, self.body@)
    }
}

/// The response to `/metrics`: the exposition text where collecting
/// succeeded, else a server error whose body carries the error's message.
pub open spec fn metrics_response_of(result: Result<Seq<char>, Seq<char>>) -> (
    Seq<char>,
    Seq<char>,
    Seq<char>,
) {
    match result {
        Ok(text) => ("200 OK"@, "text/plain; version=0.0.4"@, text),
        Err(msg) => ("500 Internal Server Error"@, "text/plain"@, "error: "@ + msg),
    }
}

/// The response to `/metrics`, given what collecting the metrics gave: the
/// text, or the message of the error.
pub fn metrics_response(result: Result<String, String>) -> (r: Response)
    ensures
        r@ == metrics_response_of(
            match result {
                Ok(t) => Ok(t@),
                Err(e) => Err(e@),
            },
        ),
{
    match result {
        Ok(text) => Response {
            status: String::from_str("200 OK"),
            content_type: String::from_str("text/plain; version=0.0.4"),
            body: text,
        },
        Err(msg) => {
            let body = String::from_str("error: ").concat(msg.as_str());
            Response {
                status: String::from_str("500 Internal Server Error"),
                content_type: String::from_str("text/plain"),
                body,
            }
        },
    }
}

/// The page served at `/`: a link to the metrics.
pub open spec fn index_page() -> Seq<char> {
    "<html><body><a href=\"/metrics\">/metrics</a></body></html>"@
}

/// The response to `/`.
pub fn index_response() -> (r: Response)
    ensures
        r@ == ("200 OK"@, "text/html"@, index_page()),
{
    Response {
        status: String::from_str("200 OK"),
        content_type: String::from_str("text/html"),
        body: String::from_str("<html><body><a href=\"/metrics\">/metrics</a></body></html>"),
    }
}

/// The response to any other path.
pub fn not_found_response() -> (r: Response)
    ensures
        r@ == ("404 Not Found"@, "text/plain"@, "not found"@),
{
    Response {
        status: String::from_str("404 Not Found"),
        content_type: String::from_str("text/plain"),
        body: String::from_str("not found"),
    }
}

/// The number of bytes in the UTF-8 encoding of `s`.
pub open spec fn utf8_len(s: Seq<char>) -> nat {
    encode_utf8(s).len()
}

/// The bytes sent for a response: the status line, the content type, the
/// body's length in bytes, `Connection: close`, a blank line, and the body.
pub open spec fn response_text_of(status: Seq<char>, content_type: Seq<char>, body: Seq<char>) -> Seq<char> {
    "HTTP/1.1 "@ + status + "\r\nContent-Type: "@ + content_type + "\r\nContent-Length: "@
        + decimal(utf8_len(body)) + "\r\nConnection: close\r\n\r\n"@ + body
}

/// The text sent for `r`.
pub fn response_text(r: &Response) -> (t: String)
    ensures
        t@ == response_text_of(r.status@, r.content_type@, r.body@),
{
    let mut t = String::new();
    t.append("HTTP/1.1 ");
    t.append(r.status.as_str());
    t.append("\r\nContent-Type: ");
    t.append(r.content_type.as_str());
    t.append("\r\nContent-Length: ");
    let bytes: &[u8] = r.body.as_str().as_bytes();
    let n: usize = bytes.len();
    assert(n == utf8_len(r.body@));
    push_decimal(&mut t, n as u64);
    t.append("\r\nConnection: close\r\n\r\n");
    t.append(r.body.as_str());
    assert(t@ =~= response_text_of(r.status@, r.content_type@, r.body@));
    t
}


/// The status, content type and body that answer a request routed to
/// `route`, given what collecting the metrics gave (which only `/metrics`
/// looks at).
pub open spec fn route_response(route: Route, collected: Result<Seq<char>, Seq<char>>) -> (
    Seq<char>,
    Seq<char>,
    Seq<char>,
) {
    match route {
        Route::Metrics => metrics_response_of(collected),
        Route::Index => ("200 OK"@, "text/html"@, index_page()),
        Route::NotFound => ("404 Not Found"@, "text/plain"@, "not found"@),
    }
}

/// The text sent in answer to the raw request `request`.
pub open spec fn answer_of(request: Seq<u8>, collected: Result<Seq<char>, Seq<char>>) -> Seq<char> {
    let r = route_response(route_of(request_path_of(utf8_lossy(request))), collected);
    response_text_of(r.0, r.1, r.2)
}

/// The answer depends only on the path that the request asks for and, for
/// `/metrics` alone, on what collecting the metrics gave: two requests for
/// the same path get the same bytes back, and any path but `/metrics` gets
/// them whatever the collector gave.
pub proof fn lemma_answer_depends_on_path_and_result(
    req1: Seq<u8>,
    req2: Seq<u8>,
    col1: Result<Seq<char>, Seq<char>>,
    col2: Result<Seq<char>, Seq<char>>,
)
    requires
        request_path_of(utf8_lossy(req1)) == request_path_of(utf8_lossy(req2)),
        route_of(request_path_of(utf8_lossy(req1))) == Route::Metrics ==> col1 == col2,
    ensures
        answer_of(req1, col1) == answer_of(req2, col2),
{
}

} // verus!
