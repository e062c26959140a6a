use http_core::http_request::ParseError;
use http_core::http_response::HttpResponse;
use http_core::router::{file_content_response, file_created_response, handle_connection, Action};
use http_core::startup::{parse_argline_args, settle_directory};

fn answer(input: &[u8], files: &Vec<Vec<u8>>) -> Vec<u8> {
    match handle_connection(input, files) {
        Ok(Action::Respond(response)) => response.to_bytes(),
        other => panic!("{:?}", other),
    }
}

#[test]
fn get_root_is_answered_with_ok() {
    assert_eq!(answer(b"GET / HTTP/1.1\r\n\r\n", &vec![]), b"HTTP/1.1 200 OK\r\n\r\n".to_vec());
}

#[test]
fn get_echo_is_answered_with_the_text() {
    assert_eq!(
        answer(b"GET /echo/abc HTTP/1.1\r\n\r\n", &vec![]),
        b"HTTP/1.1 200 OK\r\nContent-Type: text/plain\r\nContent-Length: 3\r\n\r\nabc".to_vec()
    );
}

#[test]
fn get_user_agent_is_answered_with_the_header() {
    assert_eq!(
        answer(b"GET /user-agent HTTP/1.1\r\nHost: localhost:4221\r\nUser-Agent: testclient\r\n\r\n", &vec![]),
        b"HTTP/1.1 200 OK\r\nContent-Type: text/plain\r\nContent-Length: 10\r\n\r\ntestclient".to_vec()
    );
}

#[test]
fn missing_file_in_an_empty_root_is_not_found() {
    assert_eq!(
        answer(b"GET /files/missing.txt HTTP/1.1\r\n\r\n", &vec![]),
        b"HTTP/1.1 404 Not Found\r\n\r\n".to_vec()
    );
}

#[test]
fn listed_file_is_read_and_sent() {
    let files = vec![b"there.txt".to_vec()];
    let action = handle_connection(b"GET /files/there.txt HTTP/1.1\r\n\r\n", &files);
    assert_eq!(action, Ok(Action::ReadFile { name: b"there.txt".to_vec() }));
    assert_eq!(
        file_content_response(Some(b"content".to_vec())).to_bytes(),
        b"HTTP/1.1 200 OK\r\nContent-Type: application/octet-stream\r\nContent-Length: 7\r\n\r\ncontent"
            .to_vec()
    );
    assert_eq!(file_content_response(None), HttpResponse::make_404());
}

#[test]
fn post_writes_the_file_and_answers_created() {
    let action = handle_connection(
        b"POST /files/new.txt HTTP/1.1\r\nContent-Length: 5\r\n\r\nhello",
        &vec![],
    );
    assert_eq!(
        action,
        Ok(Action::WriteFile { name: b"new.txt".to_vec(), content: b"hello".to_vec() })
    );
    let response = file_created_response();
    assert_eq!(response.code(), 201);
    assert_eq!(response.content(), &Vec::<u8>::new());
    assert_eq!(response.to_bytes(), b"HTTP/1.1 201 Created\r\n\r\n".to_vec());
}

#[test]
fn patch_gives_no_response() {
    assert_eq!(
        handle_connection(b"PATCH /files/x HTTP/1.1\r\n\r\n", &vec![]),
        Err(ParseError::UnsupportedMethod)
    );
}

#[test]
fn directory_comes_from_the_flag() {
    let args = |list: &[&str]| list.iter().map(|a| a.to_string()).collect::<Vec<String>>();
    assert_eq!(parse_argline_args(&args(&["server", "--directory", "/tmp/data"])), "/tmp/data");
    assert_eq!(parse_argline_args(&args(&["server", "--directory", "/a", "extra"])), "/a");
    assert_eq!(parse_argline_args(&args(&["server", "--directory"])), ".");
    assert_eq!(parse_argline_args(&args(&["server"])), ".");
    assert_eq!(parse_argline_args(&args(&[])), ".");
    assert_eq!(parse_argline_args(&args(&["server", "--dir", "/a"])), ".");
    assert_eq!(parse_argline_args(&args(&["server", "/a", "--directory"])), ".");
}

#[test]
fn directory_falls_back_to_the_current_one() {
    assert_eq!(settle_directory("/tmp/data".to_string(), true), "/tmp/data");
    assert_eq!(settle_directory("/tmp/nothing".to_string(), false), ".");
}
