//! Single-shot dispatch of a parsed request: which response it gets, or
//! which file has to be read or written before the response is known.

use vstd::prelude::*;
use crate::body::Body;
use crate::headers::ContentType;
use crate::request::{Method, Request};
use crate::response::{gzip_of, Response, ResponseView, Status};
use crate::text::{after_prefix, bytes_of, same_text, strip_prefix};

verus! {

/// Where a request path leads.
#[derive(Debug)]
pub enum Route {
    /// The path `/`.
    Root,
    /// A path under `/echo/`, with what follows that prefix.
    Echo(String),
    /// The path `/user-agent`.
    UserAgent,
    /// A path under `/files/`, with what follows that prefix.
    Files(String),
    /// Any other path.
    NotFound,
}

/// A route as plain values.
pub enum RouteView {
    Root,
    Echo(Seq<char>),
    UserAgent,
    Files(Seq<char>),
    NotFound,
}

impl View for Route {
    type V = RouteView;

    open spec fn view(&self) -> RouteView {
        match self {
            Route::Root => RouteView::Root,
            Route::Echo(text) => RouteView::Echo(text@),
            Route::UserAgent => RouteView::UserAgent,
            Route::Files(name) => RouteView::Files(name@),
            Route::NotFound => RouteView::NotFound,
        }
    }
}

/// The route of a path: the first rule that matches, in the order root,
/// echo, user agent, files.
pub open spec fn route_of(path: Seq<char>) -> RouteView {
    if path == "/"@ {
        RouteView::Root
    } else if after_prefix(path, "/echo/"@) is Some {
        RouteView::Echo(after_prefix(path, "/echo/"@)->0)
    } else if path == "/user-agent"@ {
        RouteView::UserAgent
    } else if after_prefix(path, "/files/"@) is Some {
        RouteView::Files(after_prefix(path, "/files/"@)->0)
    } else {
        RouteView::NotFound
    }
}

/// Finds the route of a path.
pub fn route(path: &str) -> (r: Route)
    ensures
        r@ == route_of(path@),
{
    if same_text(path, "/") {
        return Route::Root;
    }
    if let Some(text) = strip_prefix(path, "/echo/") {
        return Route::Echo(text);
    }
    if same_text(path, "/user-agent") {
        return Route::UserAgent;
    }
    if let Some(name) = strip_prefix(path, "/files/") {
        return Route::Files(name);
    }
    Route::NotFound
}

/// What is to be done for a request.
#[derive(Debug)]
pub enum Step {
    /// Send this response.
    Respond(Response),
    /// Read the file of this name under the serving directory, then send
    /// what `file_read_response` makes of the outcome.
    ReadFile(String),
    /// Write these bytes to the file of this name under the serving
    /// directory, then send what `file_write_response` makes of the outcome.
    WriteFile(String, Vec<u8>),
}

/// A fresh response: status 200, no headers, no payload.
pub open spec fn blank() -> ResponseView {
    ResponseView {
        version: "HTTP/1.1"@,
        status: Status::Okay,
        headers: Seq::empty(),
        body: Seq::empty(),
    }
}

/// A fresh response with the given status.
pub open spec fn bare(status: Status) -> ResponseView {
    ResponseView { status, ..blank() }
}

/// The text that the user-agent route answers with.
pub open spec fn user_agent_text(request: &Request) -> Seq<char> {
    if request.headers@.contains_key("user-agent"@) {
        request.headers@["user-agent"@]
    } else {
        "None"@
    }
}

/// The answer of the echo route before any compression.
pub open spec fn echo_plain(text: Seq<char>) -> ResponseView {
    blank().with_body(ContentType::PlainText, bytes_of(text))
}

/// The file operation that a request under `/files/` asks for: a read for
/// `GET`, a write of the request's payload for `POST`.
pub fn handle_files(request: &Request, name: String) -> (r: Step)
    ensures
        match request.method {
            Method::Get => r matches Step::ReadFile(n) && n@ == name@,
            Method::Post => r matches Step::WriteFile(n, bytes) && n@ == name@ && bytes@
                == request.body@,
        },
{
    match request.method {
        Method::Get => Step::ReadFile(name),
        Method::Post => Step::WriteFile(name, request.body.duplicate().0),
    }
}

/// The response to a file read: the contents as binary payload, or 404
/// where the file could not be read.
pub fn file_read_response(contents: Option<String>) -> (r: Response)
    ensures
        r.wf(),
        r@ == match contents {
            Some(text) => blank().with_body(ContentType::OctetStream, bytes_of(text@)),
            None => bare(Status::NotFound),
        },
{
    let mut response = Response::new();
    match contents {
        Some(text) => {
            response.set_file_body(Body::from_str(text.as_str()));
        },
        None => {
            response.set_status(Status::NotFound);
        },
    }
    response
}

/// The response to a file write: 201 where it succeeded, 500 where not.
pub fn file_write_response(written: bool) -> (r: Response)
    ensures
        r.wf(),
        r@ == bare(
            if written {
                Status::Created
            } else {
                Status::InternalServerError
            },
        ),
{
    let mut response = Response::new();
    if written {
        response.set_status(Status::Created);
    } else {
        response.set_status(Status::InternalServerError);
    }
    response
}

/// Dispatches a request. The echo route compresses its answer where the
/// request accepts gzip.
pub fn respond(request: &Request) -> (r: Step)
    ensures
        match route_of(request.path@) {
            RouteView::Root => r matches Step::Respond(resp) && resp.wf() && resp@ == blank(),
            RouteView::Echo(text) => r matches Step::Respond(resp) && resp.wf() && resp@
                == Response::negotiated(
                echo_plain(text),
                request.accepts_gzip(),
                gzip_of(bytes_of(text)),
            ),
            RouteView::UserAgent => r matches Step::Respond(resp) && resp.wf() && resp@
                == blank().with_body(ContentType::PlainText, bytes_of(user_agent_text(request))),
            RouteView::Files(name) => match request.method {
                Method::Get => r matches Step::ReadFile(n) && n@ == name,
                Method::Post => r matches Step::WriteFile(n, bytes) && n@ == name && bytes@
                    == request.body@,
            },
            RouteView::NotFound => r matches Step::Respond(resp) && resp.wf() && resp@ == bare(
                Status::NotFound,
            ),
        },
{
    let mut response = Response::new();
    match route(request.path.as_str()) {
        Route::Root => {
            response.set_status(Status::Okay);
            Step::Respond(response)
        },
        Route::Echo(text) => {
            response.set_plain_text_body(Body::from_str(text.as_str()));
            response.apply_compression(request);
            Step::Respond(response)
        },
        Route::UserAgent => {
            let body = match request.headers.get_user_agent() {
                Some(agent) => Body::from_str(agent.as_str()),
                None => Body::from_str("None"),
            };
            response.set_plain_text_body(body);
            Step::Respond(response)
        },
        Route::Files(name) => handle_files(request, name),
        Route::NotFound => {
            response.set_status(Status::NotFound);
            Step::Respond(response)
        },
    }
}

} // verus!
