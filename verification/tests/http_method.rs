use http_core::http_request::HttpMethod;

#[test]
fn test_http_method_from_string() {
    assert_eq!(HttpMethod::from_str("POST"), Ok(HttpMethod::Post));
    assert_eq!(HttpMethod::from_str("GET"), Ok(HttpMethod::Get));
}

#[test]
fn test_http_method_from_string_err() {
    assert_eq!(HttpMethod::from_str("HiMom"), Err(()));
    assert_eq!(HttpMethod::from_str("post"), Err(()));
    assert_eq!(HttpMethod::from_str("Get"), Err(()));
}

#[test]
fn from_token_maps_every_other_verb_to_unsupported() {
    assert_eq!(HttpMethod::from_token(b"GET"), HttpMethod::Get);
    assert_eq!(HttpMethod::from_token(b"POST"), HttpMethod::Post);
    assert_eq!(HttpMethod::from_token(b"PATCH"), HttpMethod::Unsupported);
    assert_eq!(HttpMethod::from_token(b"DELETE"), HttpMethod::Unsupported);
    assert_eq!(HttpMethod::from_token(b""), HttpMethod::Unsupported);
    assert_eq!(HttpMethod::from_token(b"GET "), HttpMethod::Unsupported);
    assert_eq!(HttpMethod::from_token(b"get"), HttpMethod::Unsupported);
}

#[test]
fn from_str_rejects_the_empty_string_and_longer_verbs() {
    assert_eq!(HttpMethod::from_str(""), Err(()));
    assert_eq!(HttpMethod::from_str("GETS"), Err(()));
    assert_eq!(HttpMethod::from_str("POS"), Err(()));
}
