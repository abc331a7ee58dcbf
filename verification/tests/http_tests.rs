use saba_core::error::Error;
use saba_core::http::HttpResponse;

#[test]
fn test_status_line_only() {
    let raw = "HTTP/1.1 200 OK\n\n".to_string();
    let response = HttpResponse::try_from(raw).expect("failed to parse http response");
    assert_eq!(response.version(), "HTTP/1.1");
    assert_eq!(response.status_code(), 200);
    assert_eq!(response.reason(), "OK");
}

#[test]
fn test_one_header() {
    let raw = "HTTP/1.1 200 OK\nDate:xx xx xx\n\n".to_string();
    let response = HttpResponse::try_from(raw).expect("failed to parse http response");
    assert_eq!(response.version(), "HTTP/1.1");
    assert_eq!(response.status_code(), 200);
    assert_eq!(response.reason(), "OK");

    assert_eq!(response.header_value("Date"), Ok("xx xx xx".to_string()));
}

#[test]
fn test_two_header() {
    let raw = "HTTP/1.1 200 OK\nDate:xx xx xx\nContent-Length:42\n\n".to_string();
    let response = HttpResponse::try_from(raw).expect("failed to parse http response");
    assert_eq!(response.version(), "HTTP/1.1");
    assert_eq!(response.status_code(), 200);
    assert_eq!(response.reason(), "OK");

    assert_eq!(response.header_value("Date"), Ok("xx xx xx".to_string()));
    assert_eq!(
        response.header_value("Content-Length"),
        Ok("42".to_string())
    );
}

#[test]
fn http_test_body() {
    let raw = "HTTP/1.1 200 OK\nDate:xx xx xx\nContent-Length:42\n\nbody message".to_string();
    let response = HttpResponse::try_from(raw).expect("failed to parse http response");
    assert_eq!(response.version(), "HTTP/1.1");
    assert_eq!(response.status_code(), 200);
    assert_eq!(response.reason(), "OK");

    assert_eq!(response.header_value("Date"), Ok("xx xx xx".to_string()));
    assert_eq!(
        response.header_value("Content-Length"),
        Ok("42".to_string())
    );

    assert_eq!(response.body(), "body message".to_string());
}

#[test]
fn test_invalid() {
    let raw = "HTTP/1.1 200 OK".to_string();
    assert!(HttpResponse::try_from(raw).is_err());
}

#[test]
fn test_invalid_header() {
    let raw = "HTTP/1.1 200 OK\nInvalid Header\n\n".to_string();
    assert!(HttpResponse::try_from(raw).is_err());
}

#[test]
fn test_invalid_is_network_error() {
    let raw = "HTTP/1.1 200 OK".to_string();
    match HttpResponse::try_from(raw) {
        Err(Error::Network(message)) => {
            assert_eq!(message, "invalid http response: HTTP/1.1 200 OK");
        }
        other => panic!("expected a network error, got {:?}", other),
    }
}

#[test]
fn test_header_first_match() {
    let raw = "HTTP/1.1 200 OK\nX-Tag:first\nX-Tag:second\n\n".to_string();
    let response = HttpResponse::try_from(raw).expect("failed to parse http response");
    assert_eq!(response.header_value("X-Tag"), Ok("first".to_string()));
    assert!(response.header_value("Missing").is_err());
}

#[test]
fn test_status_code_defaults_to_404() {
    let raw = "HTTP/1.1 abc OK\n\n".to_string();
    let response = HttpResponse::try_from(raw).expect("failed to parse http response");
    assert_eq!(response.status_code(), 404);
}

#[test]
fn test_status_line_under_three_tokens() {
    let raw = "HTTP/1.1 200\n\n".to_string();
    assert!(HttpResponse::try_from(raw).is_err());
}

#[test]
fn test_headers_keep_insertion_order() {
    let raw = "HTTP/1.1 200 OK\nB:2\nA:1\n\nx".to_string();
    let response = HttpResponse::try_from(raw).expect("failed to parse http response");
    let headers = response.headers();
    assert_eq!(headers.len(), 2);
    assert_eq!(headers[0].name(), "B");
    assert_eq!(headers[0].value(), "2");
    assert_eq!(headers[1].name(), "A");
    assert_eq!(headers[1].value(), "1");
}

#[test]
fn test_preprocessing_trims_and_collapses() {
    let raw = "  \nHTTP/1.1 200 OK\n\rDate:xx\n\nbody".to_string();
    let response = HttpResponse::try_from(raw).expect("failed to parse http response");
    assert_eq!(response.version(), "HTTP/1.1");
    assert_eq!(response.header_value("Date"), Ok("xx".to_string()));
    assert_eq!(response.body(), "body");
}

#[test]
fn test_status_code_with_plus_sign() {
    let raw = "HTTP/1.1 +200 OK\n\n".to_string();
    let response = HttpResponse::try_from(raw).expect("failed to parse http response");
    assert_eq!(response.status_code(), 200);
}
