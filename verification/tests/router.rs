use http_core::headers::Headers;
use http_core::http_request::{HttpMethod, HttpRequest, ParseError};
use http_core::http_response::{ContentType, HttpResponse};
use http_core::router::{
    content_response, dispatch, file_content_response, file_created_response, handle_connection,
    handle_get_request, handle_post_request, return_file_request, Action, BUFFER_SIZE,
};

fn request(method: HttpMethod, path: &str, headers: &[(&str, &str)], body: &[u8]) -> HttpRequest {
    let mut entries: Vec<(Vec<u8>, Vec<u8>)> = headers
        .iter()
        .map(|(k, v)| (k.as_bytes().to_vec(), v.as_bytes().to_vec()))
        .collect();
    if !body.is_empty() {
        entries.push((b"Content-Length".to_vec(), body.len().to_string().into_bytes()));
    }
    HttpRequest::new(method, path.as_bytes().to_vec(), Headers::from_entries(&entries), body.to_vec())
        .unwrap()
}

fn listing(names: &[&str]) -> Vec<Vec<u8>> {
    names.iter().map(|n| n.as_bytes().to_vec()).collect()
}

fn text(body: &str) -> Action {
    Action::Respond(HttpResponse::new(
        200,
        "OK".to_string(),
        ContentType::TextPlain,
        body.as_bytes().to_vec(),
    ))
}

fn not_found() -> Action {
    Action::Respond(HttpResponse::make_404())
}

#[test]
fn get_root_is_ok() {
    let r = request(HttpMethod::Get, "/", &[], b"");
    assert_eq!(handle_get_request(&r, &listing(&[])), Action::Respond(HttpResponse::make_200()));
}

#[test]
fn only_the_slash_is_the_root() {
    for path in ["", "x", "//", "/index.html", "/ "] {
        let r = request(HttpMethod::Get, path, &[], b"");
        assert_eq!(handle_get_request(&r, &listing(&[])), not_found());
    }
}

#[test]
fn get_echo_returns_what_follows_the_prefix() {
    let r = request(HttpMethod::Get, "/echo/abc", &[], b"");
    assert_eq!(handle_get_request(&r, &listing(&[])), text("abc"));
    let r = request(HttpMethod::Get, "/echo/", &[], b"");
    assert_eq!(handle_get_request(&r, &listing(&[])), text(""));
    let r = request(HttpMethod::Get, "/echo/a/b/c", &[], b"");
    assert_eq!(handle_get_request(&r, &listing(&[])), text("a/b/c"));
    let r = request(HttpMethod::Get, "/echo//echo/x", &[], b"");
    assert_eq!(handle_get_request(&r, &listing(&[])), text("/echo/x"));
    let r = request(HttpMethod::Get, "/echo", &[], b"");
    assert_eq!(handle_get_request(&r, &listing(&[])), not_found());
}

#[test]
fn get_echo_of_non_ascii_text_is_measured_in_bytes() {
    let r = request(HttpMethod::Get, "/echo/grüße", &[], b"");
    match handle_get_request(&r, &listing(&[])) {
        Action::Respond(response) => {
            assert_eq!(response.content_length(), 7);
            assert_eq!(
                response.to_bytes(),
                "HTTP/1.1 200 OK\r\nContent-Type: text/plain\r\nContent-Length: 7\r\n\r\ngrüße"
                    .as_bytes()
                    .to_vec()
            );
        }
        other => panic!("{:?}", other),
    }
}

#[test]
fn get_user_agent_reflects_the_header() {
    let r = request(HttpMethod::Get, "/user-agent", &[("User-Agent", "testclient")], b"");
    assert_eq!(handle_get_request(&r, &listing(&[])), text("testclient"));
    let r = request(HttpMethod::Get, "/user-agent/more", &[("User-Agent", "a b")], b"");
    assert_eq!(handle_get_request(&r, &listing(&[])), text("a b"));
}

#[test]
fn get_user_agent_without_the_header_is_empty() {
    let r = request(HttpMethod::Get, "/user-agent", &[("Host", "h")], b"");
    assert_eq!(handle_get_request(&r, &listing(&[])), text(""));
    let r = request(HttpMethod::Get, "/user-agent", &[("user-agent", "lower")], b"");
    assert_eq!(handle_get_request(&r, &listing(&[])), text(""));
}

#[test]
fn get_file_is_read_only_if_listed() {
    let files = listing(&["a.txt", "b.bin"]);
    let r = request(HttpMethod::Get, "/files/a.txt", &[], b"");
    assert_eq!(handle_get_request(&r, &files), Action::ReadFile { name: b"a.txt".to_vec() });
    let r = request(HttpMethod::Get, "/files/missing.txt", &[], b"");
    assert_eq!(handle_get_request(&r, &files), not_found());
    let r = request(HttpMethod::Get, "/files/", &[], b"");
    assert_eq!(handle_get_request(&r, &files), not_found());
    let r = request(HttpMethod::Get, "/files/../a.txt", &[], b"");
    assert_eq!(handle_get_request(&r, &files), not_found());
    let r = request(HttpMethod::Get, "/files/A.TXT", &[], b"");
    assert_eq!(handle_get_request(&r, &files), not_found());
}

#[test]
fn return_file_request_looks_the_name_up() {
    let files = listing(&["x", "yy", "x"]);
    assert_eq!(return_file_request(b"x".to_vec(), &files), Action::ReadFile { name: b"x".to_vec() });
    assert_eq!(return_file_request(b"yy".to_vec(), &files), Action::ReadFile { name: b"yy".to_vec() });
    assert_eq!(return_file_request(b"y".to_vec(), &files), not_found());
    assert_eq!(return_file_request(b"".to_vec(), &files), not_found());
    assert_eq!(return_file_request(b"x".to_vec(), &listing(&[])), not_found());
}

#[test]
fn first_matching_rule_wins() {
    let files = listing(&["echo"]);
    let r = request(HttpMethod::Get, "/echo/user-agent", &[("User-Agent", "ua")], b"");
    assert_eq!(handle_get_request(&r, &files), text("user-agent"));
    let r = request(HttpMethod::Get, "/user-agent/files/x", &[("User-Agent", "ua")], b"");
    assert_eq!(handle_get_request(&r, &files), text("ua"));
}

#[test]
fn post_file_writes_the_body() {
    let r = request(HttpMethod::Post, "/files/new.txt", &[], b"hello");
    assert_eq!(
        handle_post_request(&r),
        Action::WriteFile { name: b"new.txt".to_vec(), content: b"hello".to_vec() }
    );
    let r = request(HttpMethod::Post, "/files/empty", &[], b"");
    assert_eq!(
        handle_post_request(&r),
        Action::WriteFile { name: b"empty".to_vec(), content: Vec::new() }
    );
}

#[test]
fn post_elsewhere_is_not_found() {
    for path in ["/", "/echo/abc", "/user-agent", "/files", "/file/x"] {
        let r = request(HttpMethod::Post, path, &[], b"x");
        assert_eq!(handle_post_request(&r), not_found());
    }
}

#[test]
fn dispatch_goes_by_the_verb() {
    let files = listing(&["f"]);
    let get = request(HttpMethod::Get, "/files/f", &[], b"");
    assert_eq!(dispatch(&get, &files), Action::ReadFile { name: b"f".to_vec() });
    let post = request(HttpMethod::Post, "/files/f", &[], b"data");
    assert_eq!(
        dispatch(&post, &files),
        Action::WriteFile { name: b"f".to_vec(), content: b"data".to_vec() }
    );
    let post_root = request(HttpMethod::Post, "/", &[], b"");
    assert_eq!(dispatch(&post_root, &files), not_found());
    let other = request(HttpMethod::Unsupported, "/files/f", &[], b"");
    assert_eq!(dispatch(&other, &files), not_found());
    let other_root = request(HttpMethod::Unsupported, "/", &[], b"");
    assert_eq!(dispatch(&other_root, &files), not_found());
}

#[test]
fn responses_behind_the_file_operations() {
    assert_eq!(
        file_content_response(Some(b"data".to_vec())).to_bytes(),
        b"HTTP/1.1 200 OK\r\nContent-Type: application/octet-stream\r\nContent-Length: 4\r\n\r\ndata"
            .to_vec()
    );
    assert_eq!(
        file_content_response(Some(Vec::new())).to_bytes(),
        b"HTTP/1.1 200 OK\r\nContent-Type: application/octet-stream\r\n\r\n".to_vec()
    );
    assert_eq!(file_content_response(None), HttpResponse::make_404());
    assert_eq!(file_created_response().to_bytes(), b"HTTP/1.1 201 Created\r\n\r\n".to_vec());
    assert_eq!(file_created_response().code(), 201);
    assert_eq!(
        content_response(ContentType::TextPlain, b"x".to_vec()),
        HttpResponse::new(200, "OK".to_string(), ContentType::TextPlain, b"x".to_vec())
    );
}

#[test]
fn connection_parses_and_routes() {
    let files = listing(&["a.txt"]);
    assert_eq!(
        handle_connection(b"GET /files/a.txt HTTP/1.1\r\nHost: h\r\n\r\n", &files),
        Ok(Action::ReadFile { name: b"a.txt".to_vec() })
    );
    assert_eq!(handle_connection(b"GET /nowhere HTTP/1.1\r\n\r\n", &files), Ok(not_found()));
    assert_eq!(
        handle_connection(b"DELETE /files/a.txt HTTP/1.1\r\n\r\n", &files),
        Err(ParseError::UnsupportedMethod)
    );
    assert_eq!(handle_connection(b"", &files), Err(ParseError::MalformedRequestLine));
    assert_eq!(
        handle_connection(b"GET / HTTP/1.1\r\nbroken\r\n\r\n", &files),
        Err(ParseError::MalformedHeader)
    );
    assert_eq!(
        handle_connection(b"POST /files/x HTTP/1.1\r\nContent-Length: 9\r\n\r\nshort", &files),
        Err(ParseError::IncompleteBody)
    );
}

#[test]
fn a_request_beyond_one_read_is_too_large() {
    assert_eq!(BUFFER_SIZE, 4096);
    let head = b"POST /files/big HTTP/1.1\r\nContent-Length: 10\r\n\r\n";
    let mut fits = head.to_vec();
    fits.resize(BUFFER_SIZE, b'x');
    assert_eq!(
        handle_connection(&fits, &listing(&[])),
        Ok(Action::WriteFile { name: b"big".to_vec(), content: b"xxxxxxxxxx".to_vec() })
    );
    let mut too_large = fits.clone();
    too_large.push(b'x');
    assert_eq!(handle_connection(&too_large, &listing(&[])), Err(ParseError::TooLarge));
    let mut garbage = vec![0u8; BUFFER_SIZE + 1];
    garbage[0] = b'?';
    assert_eq!(handle_connection(&garbage, &listing(&[])), Err(ParseError::TooLarge));
}

#[test]
fn a_body_beyond_the_read_is_incomplete() {
    let mut input = b"POST /files/big HTTP/1.1\r\nContent-Length: 5000\r\n\r\n".to_vec();
    input.resize(BUFFER_SIZE, b'x');
    assert_eq!(handle_connection(&input, &listing(&[])), Err(ParseError::IncompleteBody));
}
