//! Routing: from a request to the response, or to the file operation that
//! has to be carried out before the response is known.

use crate::http_request::{request_spec, HttpMethod, HttpRequest, ParseError, RequestView};
use crate::http_response::{ContentType, HttpResponse, ResponseView};
use crate::text::{ascii, has_prefix, literal, same_bytes, starts_with};
use itertools::Itertools;
use vstd::prelude::*;
use vstd::slice::{slice_subrange, slice_to_vec};

verus! {

/// The number of bytes that one read brings: a request that does not fit
/// into one read of this size is not served.
pub const BUFFER_SIZE: usize = 4096;

/// What a connection does next.
#[derive(Debug, PartialEq, Eq)]
pub enum Action {
    /// Send this response.
    Respond(HttpResponse),
    /// Read the file of this name in the root directory, then answer with
    /// [`file_content_response`].
    ReadFile { name: Vec<u8> },
    /// Create or truncate the file of this name in the root directory and
    /// write the content to it, then answer with [`file_created_response`].
    WriteFile { name: Vec<u8>, content: Vec<u8> },
}

/// An [`Action`], as a mathematical value.
pub enum ActionView {
    Respond(ResponseView),
    ReadFile { name: Seq<u8> },
    WriteFile { name: Seq<u8>, content: Seq<u8> },
}

impl View for Action {
    type V = ActionView;

    open spec fn view(&self) -> ActionView {
        match self {
            Action::Respond(response) => ActionView::Respond(response@),
            Action::ReadFile { name } => ActionView::ReadFile { name: name@ },
            Action::WriteFile { name, content } => ActionView::WriteFile {
                name: name@,
                content: content@,
            },
        }
    }
}

/// `200 OK` without content type or body.
pub open spec fn ok_view() -> ResponseView {
    ResponseView { status: 200, reason: "OK"@, content_type: ContentType::Absent, body: Seq::empty() }
}

/// `404 Not Found` without content type or body.
pub open spec fn not_found_view() -> ResponseView {
    ResponseView {
        status: 404,
        reason: "Not Found"@,
        content_type: ContentType::Absent,
        body: Seq::empty(),
    }
}

/// `201 Created` without content type or body.
pub open spec fn created_view() -> ResponseView {
    ResponseView {
        status: 201,
        reason: "Created"@,
        content_type: ContentType::Absent,
        body: Seq::empty(),
    }
}

/// `200 OK` with a body of the given content type.
pub open spec fn content_view(content_type: ContentType, body: Seq<u8>) -> ResponseView {
    ResponseView { status: 200, reason: "OK"@, content_type, body }
}

/// The names of a directory listing.
pub open spec fn names(files: Seq<Vec<u8>>) -> Seq<Seq<u8>> {
    Seq::new(files.len(), |i: int| files[i]@)
}

/// The value of the `User-Agent` header, empty without that header.
pub open spec fn user_agent(headers: Map<Seq<u8>, Seq<u8>>) -> Seq<u8> {
    if headers.contains_key(ascii("User-Agent")) {
        headers[ascii("User-Agent")]
    } else {
        Seq::empty()
    }
}

/// What a path is without the prefix that selected its route.
pub open spec fn after_prefix(path: Seq<u8>, prefix: Seq<u8>) -> Seq<u8> {
    path.skip(prefix.len() as int)
}

/// The answer to a request for the file `name`: it is read if the listing
/// of the root directory holds that name, and not found otherwise.
pub open spec fn file_spec(name: Seq<u8>, files: Seq<Seq<u8>>) -> ActionView {
    if files.contains(name) {
        ActionView::ReadFile { name }
    } else {
        ActionView::Respond(not_found_view())
    }
}

/// The routes of a `GET` request: the first rule that matches the path
/// decides.
pub open spec fn get_spec(request: RequestView, files: Seq<Seq<u8>>) -> ActionView {
    if request.path == ascii("/") {
        ActionView::Respond(ok_view())
    } else if has_prefix(request.path, ascii("/echo/")) {
        ActionView::Respond(
            content_view(ContentType::TextPlain, after_prefix(request.path, ascii("/echo/"))),
        )
    } else if has_prefix(request.path, ascii("/user-agent")) {
        ActionView::Respond(content_view(ContentType::TextPlain, user_agent(request.headers)))
    } else if has_prefix(request.path, ascii("/files/")) {
        file_spec(after_prefix(request.path, ascii("/files/")), files)
    } else {
        ActionView::Respond(not_found_view())
    }
}

/// The routes of a `POST` request.
pub open spec fn post_spec(request: RequestView) -> ActionView {
    if has_prefix(request.path, ascii("/files/")) {
        ActionView::WriteFile {
            name: after_prefix(request.path, ascii("/files/")),
            content: request.body,
        }
    } else {
        ActionView::Respond(not_found_view())
    }
}

/// The routes of a request, by its verb. A request with any other verb is
/// not found.
pub open spec fn dispatch_spec(request: RequestView, files: Seq<Seq<u8>>) -> ActionView {
    match request.method {
        HttpMethod::Get => get_spec(request, files),
        HttpMethod::Post => post_spec(request),
        HttpMethod::Unsupported => ActionView::Respond(not_found_view()),
    }
}

/// What a connection does with the bytes that it has read: more bytes than
/// one read brings are too many, a buffer that is no request is an error,
/// and a request is routed.
pub open spec fn connection_spec(input: Seq<u8>, files: Seq<Seq<u8>>) -> Result<
    ActionView,
    ParseError,
> {
    if input.len() > BUFFER_SIZE {
        Err(ParseError::TooLarge)
    } else {
        match request_spec(input) {
            Ok((request, _)) => Ok(dispatch_spec(request, files)),
            Err(error) => Err(error),
        }
    }
}

/// `Itertools::contains` over the names of a listing: whether one of them
/// equals `name`, byte for byte.
#[verifier::external_body]
fn listing_contains(files: &Vec<Vec<u8>>, name: &Vec<u8>) -> (r: bool)
    ensures
        r == names(files@).contains(name@),
{
    files.iter().contains(name)
}

/// `200 OK` with a body of the given content type.
pub fn content_response(content_type: ContentType, body: Vec<u8>) -> (r: HttpResponse)
    ensures
        r@ == content_view(content_type, body@),
{
    HttpResponse::new(200, "OK".to_owned(), content_type, body)
}

/// The response to a `GET` for a file, once the read has been tried: the
/// content as an octet stream, or not found where there was none.
pub fn file_content_response(content: Option<Vec<u8>>) -> (r: HttpResponse)
    ensures
        r@ == match content {
            Some(bytes) => content_view(ContentType::ApplicationOctetStream, bytes@),
            None => not_found_view(),
        },
{
    match content {
        Some(bytes) => content_response(ContentType::ApplicationOctetStream, bytes),
        None => HttpResponse::make_404(),
    }
}

/// The response to a `POST` for a file, once the file has been written.
pub fn file_created_response() -> (r: HttpResponse)
    ensures
        r@ == created_view(),
{
    HttpResponse::new(201, "Created".to_owned(), ContentType::Absent, Vec::new())
}

/// Decides a request for the file `filename` against the listing of the
/// root directory.
pub fn return_file_request(filename: Vec<u8>, files: &Vec<Vec<u8>>) -> (r: Action)
    ensures
        r@ == file_spec(filename@, names(files@)),
{
    if listing_contains(files, &filename) {
        Action::ReadFile { name: filename }
    } else {
        Action::Respond(HttpResponse::make_404())
    }
}

/// Routes a `GET` request.
pub fn handle_get_request(request: &HttpRequest, files: &Vec<Vec<u8>>) -> (r: Action)
    ensures
        r@ == get_spec(request@, names(files@)),
{
    proof {
        reveal_strlit("/");
        reveal_strlit("/echo/");
        reveal_strlit("/user-agent");
        reveal_strlit("/files/");
        reveal_strlit("User-Agent");
    }
    let path = request.path().as_slice();
    if same_bytes(path, literal("/")) {
        Action::Respond(HttpResponse::make_200())
    } else if starts_with(path, literal("/echo/")) {
        let text = slice_to_vec(slice_subrange(path, 6, path.len()));
        Action::Respond(content_response(ContentType::TextPlain, text))
    } else if starts_with(path, literal("/user-agent")) {
        let agent = match request.headers().get(literal("User-Agent")) {
            Some(value) => slice_to_vec(value.as_slice()),
            None => Vec::new(),
        };
        Action::Respond(content_response(ContentType::TextPlain, agent))
    } else if starts_with(path, literal("/files/")) {
        let name = slice_to_vec(slice_subrange(path, 7, path.len()));
        return_file_request(name, files)
    } else {
        Action::Respond(HttpResponse::make_404())
    }
}

/// Routes a `POST` request.
pub fn handle_post_request(request: &HttpRequest) -> (r: Action)
    ensures
        r@ == post_spec(request@),
{
    proof {
        reveal_strlit("/files/");
    }
    let path = request.path().as_slice();
    if starts_with(path, literal("/files/")) {
        let name = slice_to_vec(slice_subrange(path, 7, path.len()));
        let content = slice_to_vec(request.body().as_slice());
        Action::WriteFile { name, content }
    } else {
        Action::Respond(HttpResponse::make_404())
    }
}

/// Routes a request by its verb.
pub fn dispatch(request: &HttpRequest, files: &Vec<Vec<u8>>) -> (r: Action)
    ensures
        r@ == dispatch_spec(request@, names(files@)),
{
    match request.method() {
        HttpMethod::Get => handle_get_request(request, files),
        HttpMethod::Post => handle_post_request(request),
        HttpMethod::Unsupported => Action::Respond(HttpResponse::make_404()),
    }
}

/// Decides what a connection does with the bytes that it has read, given
/// the listing of the root directory. On an error the connection is closed
/// without a response.
pub fn handle_connection(input: &[u8], files: &Vec<Vec<u8>>) -> (r: Result<Action, ParseError>)
    ensures
        match connection_spec(input@, names(files@)) {
            Ok(action) => r matches Ok(a) && a@ == action,
            Err(error) => r matches Err(e) && e == error,
        },
{
    if input.len() > BUFFER_SIZE {
        return Err(ParseError::TooLarge);
    }
    match HttpRequest::parse_request(input) {
        Ok((_, request)) => Ok(dispatch(&request, files)),
        Err(error) => Err(error),
    }
}

} // verus!
