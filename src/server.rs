//! What a connection is answered: the decisions that stand between reading
//! the request and writing the response. Reading the socket, looking the
//! file up and writing the bytes are left to the caller.

use vstd::prelude::*;
use vstd::string::*;
use crate::request::{parsed, HTTPRequest};
use crate::response::{content_type, decimal, extension, http_date, HTTPResponse, Status};

verus! {

/// Status, headers, and whether the file's content follows the head.
pub type ResponseModel = (Option<Status>, Map<Seq<char>, Seq<char>>, bool);

impl HTTPResponse {
    pub open spec fn model(&self) -> ResponseModel {
        (self.status, self.header_view(), self.file)
    }
}

/// The status for a file that could not be opened: a directory's missing
/// index is forbidden, any other missing file is not found.
pub open spec fn missing_status(auto_index: bool) -> Status {
    if auto_index {
        Status::Forbidden
    } else {
        Status::NotFound
    }
}

/// The answer to a lookup of `full` whose outcome is `found` (the file's
/// length when it was found); `body` says whether its content is sent.
pub open spec fn lookup_response(
    full: Seq<char>,
    auto_index: bool,
    found: Option<u64>,
    body: bool,
) -> ResponseModel {
    match found {
        Some(len) => (
            Some(Status::Success),
            Map::empty().insert("Content-Type"@, content_type(extension(full))).insert(
                "Content-Length"@,
                decimal(len as nat),
            ),
            body,
        ),
        None => (Some(missing_status(auto_index)), Map::empty(), false),
    }
}

/// The answer for a status alone.
pub open spec fn bare_response(s: Status) -> ResponseModel {
    (Some(s), Map::empty(), false)
}

/// The answer to a request, by method.
pub open spec fn request_response(
    method: Seq<char>,
    full: Seq<char>,
    auto_index: bool,
    found: Option<u64>,
) -> ResponseModel {
    if method == "GET"@ {
        lookup_response(full, auto_index, found, true)
    } else if method == "HEAD"@ {
        lookup_response(full, auto_index, found, false)
    } else {
        bare_response(Status::NotAllowed)
    }
}

/// A response with the headers that every response carries: `Date` (its
/// value `date`), `Server` and `Connection: close`.
pub open spec fn finished(m: ResponseModel, date: Seq<char>) -> ResponseModel {
    (
        m.0,
        m.1.insert("Date"@, date).insert("Server"@, "Rust (Unix)"@).insert(
            "Connection"@,
            "close"@,
        ),
        m.2,
    )
}

/// The file that a path names under the document root.
pub fn resolve(root: &str, path: &str) -> (r: String)
    ensures
        r@ == root@ + path@,
{
    let mut r = root.to_owned();
    r.append(path);
    r
}

fn lookup(full_path: &str, auto_index: bool, found: Option<u64>, body: bool) -> (r: HTTPResponse)
    ensures
        r.wf(),
        r.model() == lookup_response(full_path@, auto_index, found, body),
{
    let mut resp = HTTPResponse::new();
    match found {
        Some(len) => {
            resp.setContentType(full_path);
            resp.setContentLength(len);
            resp.setOk(body);
        },
        None => {
            if auto_index {
                resp.set403();
            } else {
                resp.setNotFound();
            }
        },
    }
    resp
}

/// The answer to a GET of `full_path`; `found` is the file's length when it
/// could be opened.
pub fn handle_get(full_path: &str, auto_index: bool, found: Option<u64>) -> (r: HTTPResponse)
    ensures
        r.wf(),
        r.model() == lookup_response(full_path@, auto_index, found, true),
{
    lookup(full_path, auto_index, found, true)
}

/// The answer to a HEAD of `full_path`; `found` is the file's length when it
/// exists. No content follows.
pub fn handle_head(full_path: &str, auto_index: bool, found: Option<u64>) -> (r: HTTPResponse)
    ensures
        r.wf(),
        r.model() == lookup_response(full_path@, auto_index, found, false),
{
    lookup(full_path, auto_index, found, false)
}

pub fn handle_other() -> (r: HTTPResponse)
    ensures
        r.wf(),
        r.model() == bare_response(Status::NotAllowed),
{
    let mut resp = HTTPResponse::new();
    resp.setNotAllowed();
    resp
}

pub fn handle_bad_request() -> (r: HTTPResponse)
    ensures
        r.wf(),
        r.model() == bare_response(Status::BadRequest),
{
    let mut resp = HTTPResponse::new();
    resp.setBadRequest();
    resp
}

/// The answer to a parsed request, given the outcome of its lookup.
pub fn handle_request(req: &HTTPRequest, full_path: &str, found: Option<u64>) -> (r: HTTPResponse)
    ensures
        r.wf(),
        r.model() == request_response(req.method@, full_path@, req.isAutoIndex, found),
{
    if req.method == String::from_str("GET") {
        handle_get(full_path, req.isAutoIndex, found)
    } else if req.method == String::from_str("HEAD") {
        handle_head(full_path, req.isAutoIndex, found)
    } else {
        handle_other()
    }
}

/// Adds `Date`, `Server` and `Connection: close`.
pub fn finish(resp: &mut HTTPResponse)
    requires
        old(resp).wf(),
    ensures
        final(resp).wf(),
        final(resp).model() == finished(old(resp).model(), final(resp).header_view()["Date"@]),
        http_date(final(resp).header_view()["Date"@]),
{
    resp.setDate();
    let ghost date = resp.header_view()["Date"@];
    resp.setServer("Rust (Unix)");
    resp.setConnection("close");
    proof {
        reveal_strlit("Date");
        reveal_strlit("Server");
        reveal_strlit("Connection");
        assert("Date"@.len() != "Server"@.len());
        assert("Date"@.len() != "Connection"@.len());
        assert(resp.header_view()["Date"@] == date);
        assert(resp.header_view() =~= finished(old(resp).model(), date).1);
    }
}

/// What to do with the bytes read from a connection.
pub enum Step {
    /// Send this response.
    Respond(HTTPResponse),
    /// Look up the file at the given path, then call `answer`.
    Lookup(HTTPRequest, String),
}

/// Reads the request; a request that does not parse is answered 400 at once.
pub fn begin(buffer: &[u8], root: &str) -> (r: Step)
    ensures
        match r {
            Step::Respond(resp) => parsed(buffer@) is None && resp.wf() && resp.model()
                == finished(bare_response(Status::BadRequest), resp.header_view()["Date"@])
                && http_date(resp.header_view()["Date"@]),
            Step::Lookup(req, full) => parsed(buffer@) == Some(
                (req.method@, req.path@, req.isAutoIndex),
            ) && full@ == root@ + req.path@,
        },
{
    match HTTPRequest::parse(buffer) {
        Ok(req) => {
            let full = resolve(root, req.path.as_str());
            Step::Lookup(req, full)
        },
        Err(_) => {
            let mut resp = handle_bad_request();
            finish(&mut resp);
            Step::Respond(resp)
        },
    }
}

/// The complete response to a request whose lookup gave `found`.
pub fn answer(req: &HTTPRequest, full_path: &str, found: Option<u64>) -> (r: HTTPResponse)
    ensures
        r.wf(),
        r.model() == finished(
            request_response(req.method@, full_path@, req.isAutoIndex, found),
            r.header_view()["Date"@],
        ),
        http_date(r.header_view()["Date"@]),
{
    let mut resp = handle_request(req, full_path, found);
    finish(&mut resp);
    resp
}

/// Two answers to the same request, with the same lookup outcome, differ in
/// the `Date` header at most.
pub proof fn lemma_repeat_differs_in_date_only(
    method: Seq<char>,
    full: Seq<char>,
    auto_index: bool,
    found: Option<u64>,
    date1: Seq<char>,
    date2: Seq<char>,
)
    ensures
        ({
            let a = finished(request_response(method, full, auto_index, found), date1);
            let b = finished(request_response(method, full, auto_index, found), date2);
            a.0 == b.0 && a.2 == b.2 && a.1.remove("Date"@) == b.1.remove("Date"@)
        }),
{
    reveal_strlit("Date");
    reveal_strlit("Server");
    reveal_strlit("Connection");
    assert("Date"@.len() != "Server"@.len());
    assert("Date"@.len() != "Connection"@.len());
    let m = request_response(method, full, auto_index, found);
    let a = finished(m, date1);
    let b = finished(m, date2);
    assert(a.1.remove("Date"@) =~= b.1.remove("Date"@));
}

/// A missing file is forbidden where a directory's index was asked for, and
/// not found otherwise.
pub proof fn lemma_missing_file(method: Seq<char>, full: Seq<char>, auto_index: bool)
    requires
        method == "GET"@ || method == "HEAD"@,
    ensures
        request_response(method, full, auto_index, None).0 == Some(
            if auto_index {
                Status::Forbidden
            } else {
                Status::NotFound
            },
        ),
{
}

} // verus!
