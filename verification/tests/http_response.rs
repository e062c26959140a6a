use http_core::http_response::{ContentType, HttpResponse};

#[test]
fn make_200_is_ok_without_headers_or_body() {
    let response = HttpResponse::make_200();
    assert_eq!(response.code(), 200);
    assert_eq!(response.message(), "OK");
    assert_eq!(response.content_type(), ContentType::Absent);
    assert_eq!(response.content(), &Vec::<u8>::new());
    assert_eq!(response.content_length(), 0);
    assert_eq!(response.to_bytes(), b"HTTP/1.1 200 OK\r\n\r\n".to_vec());
}

#[test]
fn make_404_is_not_found_without_headers_or_body() {
    let response = HttpResponse::make_404();
    assert_eq!(response.code(), 404);
    assert_eq!(response.message(), "Not Found");
    assert_eq!(response.content_type(), ContentType::Absent);
    assert_eq!(response.content_length(), 0);
    assert_eq!(response.to_bytes(), b"HTTP/1.1 404 Not Found\r\n\r\n".to_vec());
}

#[test]
fn content_type_names() {
    assert_eq!(ContentType::TextPlain.to_string(), "text/plain");
    assert_eq!(ContentType::ApplicationOctetStream.to_string(), "application/octet-stream");
    assert_eq!(ContentType::Absent.to_string(), "");
    assert_eq!(ContentType::TextPlain.as_str(), "text/plain");
    assert_eq!(ContentType::ApplicationOctetStream.as_str(), "application/octet-stream");
    assert_eq!(ContentType::Absent.as_str(), "");
}

#[test]
fn text_response_on_the_wire() {
    let response =
        HttpResponse::new(200, "OK".to_string(), ContentType::TextPlain, b"abc".to_vec());
    assert_eq!(
        response.to_bytes(),
        b"HTTP/1.1 200 OK\r\nContent-Type: text/plain\r\nContent-Length: 3\r\n\r\nabc".to_vec()
    );
}

#[test]
fn octet_stream_response_on_the_wire() {
    let response = HttpResponse::new(
        200,
        "OK".to_string(),
        ContentType::ApplicationOctetStream,
        vec![0, 1, 2, 255, 13, 10],
    );
    let mut expected =
        b"HTTP/1.1 200 OK\r\nContent-Type: application/octet-stream\r\nContent-Length: 6\r\n\r\n"
            .to_vec();
    expected.extend_from_slice(&[0, 1, 2, 255, 13, 10]);
    assert_eq!(response.to_bytes(), expected);
}

#[test]
fn content_type_without_body_and_body_without_content_type() {
    let typed = HttpResponse::new(200, "OK".to_string(), ContentType::TextPlain, Vec::new());
    assert_eq!(typed.to_bytes(), b"HTTP/1.1 200 OK\r\nContent-Type: text/plain\r\n\r\n".to_vec());
    let untyped = HttpResponse::new(200, "OK".to_string(), ContentType::Absent, b"x".to_vec());
    assert_eq!(untyped.to_bytes(), b"HTTP/1.1 200 OK\r\nContent-Length: 1\r\n\r\nx".to_vec());
}

#[test]
fn content_length_counts_bytes_not_characters() {
    let text = "héllo wörld ✓";
    assert_eq!(text.chars().count(), 13);
    assert_eq!(text.len(), 17);
    let response =
        HttpResponse::new(200, "OK".to_string(), ContentType::TextPlain, text.as_bytes().to_vec());
    assert_eq!(response.content_length(), 17);
    let mut expected =
        b"HTTP/1.1 200 OK\r\nContent-Type: text/plain\r\nContent-Length: 17\r\n\r\n".to_vec();
    expected.extend_from_slice(text.as_bytes());
    assert_eq!(response.to_bytes(), expected);
}

#[test]
fn reason_phrase_is_written_in_utf8() {
    let response = HttpResponse::new(299, "Schön".to_string(), ContentType::Absent, Vec::new());
    assert_eq!(response.to_bytes(), "HTTP/1.1 299 Schön\r\n\r\n".as_bytes().to_vec());
}

#[test]
fn status_codes_are_written_in_decimal() {
    for (code, text) in [(0usize, "0"), (7, "7"), (10, "10"), (201, "201"), (1234567, "1234567")] {
        let response = HttpResponse::new(code, "X".to_string(), ContentType::Absent, Vec::new());
        assert_eq!(response.to_bytes(), format!("HTTP/1.1 {} X\r\n\r\n", text).into_bytes());
    }
}

#[test]
fn long_bodies_announce_their_length() {
    for n in [9usize, 10, 99, 100, 1000, 4096, 65536] {
        let body = vec![b'a'; n];
        let response =
            HttpResponse::new(200, "OK".to_string(), ContentType::Absent, body.clone());
        let bytes = response.to_bytes();
        let head = format!("HTTP/1.1 200 OK\r\nContent-Length: {}\r\n\r\n", n).into_bytes();
        assert_eq!(&bytes[..head.len()], &head[..]);
        assert_eq!(&bytes[head.len()..], &body[..]);
    }
}

#[test]
fn announced_length_is_read_back_from_the_wire() {
    for body in [&b"x"[..], "grüße ✓".as_bytes(), &[0u8; 300][..], &b"a: b\r\n\r\nc"[..]] {
        let response = HttpResponse::new(
            200,
            "OK".to_string(),
            ContentType::ApplicationOctetStream,
            body.to_vec(),
        );
        let bytes = response.to_bytes();
        let status_end = bytes.iter().position(|b| *b == b'\r').unwrap();
        let (rest, headers) =
            http_core::http_request::HttpRequest::parse_headers(&bytes[status_end..]).unwrap();
        assert_eq!(headers.len(), 2);
        assert_eq!(headers.get(b"Content-Type"), Some(&b"application/octet-stream".to_vec()));
        let announced = headers.get(b"Content-Length").unwrap();
        assert_eq!(http_core::text::read_announced(announced), Some(body.len()));
        assert_eq!(&rest[4..], body);
        assert_eq!(&rest[..4], &b"\r\n\r\n"[..]);
    }
    let empty = HttpResponse::new(200, "OK".to_string(), ContentType::TextPlain, Vec::new());
    let bytes = empty.to_bytes();
    let status_end = bytes.iter().position(|b| *b == b'\r').unwrap();
    let (_, headers) =
        http_core::http_request::HttpRequest::parse_headers(&bytes[status_end..]).unwrap();
    assert_eq!(headers.get(b"Content-Length"), None);
}
