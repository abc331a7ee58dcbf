use saba_core::url::Url;

#[test]
fn test_host() {
    let url = "http://example.com";
    let u = Url::try_from(url).expect("failed to parse url");
    assert_eq!(u.host(), "example.com".to_string());
    assert_eq!(u.port(), "80".to_string());
    assert_eq!(u.path(), String::new());
    assert_eq!(u.params(), String::new());
}

#[test]
fn test_host_port() {
    let url = "http://example.com:8888";
    let u = Url::try_from(url).expect("failed to parse url");
    assert_eq!(u.host(), "example.com".to_string());
    assert_eq!(u.port(), "8888".to_string());
    assert_eq!(u.path(), String::new());
    assert_eq!(u.params(), String::new());
}

#[test]
fn test_host_port_path() {
    let url = "http://example.com:8888/index.html";
    let u = Url::try_from(url).expect("failed to parse url");
    assert_eq!(u.host(), "example.com".to_string());
    assert_eq!(u.port(), "8888".to_string());
    assert_eq!(u.path(), "index.html".to_string());
    assert_eq!(u.params(), String::new());
}

#[test]
fn test_host_path() {
    let url = "http://example.com/index.html";
    let u = Url::try_from(url).expect("failed to parse url");
    assert_eq!(u.host(), "example.com".to_string());
    assert_eq!(u.port(), "80".to_string());
    assert_eq!(u.path(), "index.html".to_string());
    assert_eq!(u.params(), String::new());
}

#[test]
fn test_host_port_path_param() {
    let url = "http://example.com:8888/index.html?a=123&b=456";
    let u = Url::try_from(url).expect("failed to parse url");
    assert_eq!(u.host(), "example.com".to_string());
    assert_eq!(u.port(), "8888".to_string());
    assert_eq!(u.path(), "index.html".to_string());
    assert_eq!(u.params(), "a=123&b=456".to_string());
}

#[test]
fn test_no_scheme() {
    let url = "example.com";
    let expected = Err("Only HTTP scheme is supported.".to_string());
    assert_eq!(expected, Url::try_from(url));
}

#[test]
fn test_unsupported_scheme() {
    let url = "https://example.com";
    let expected = Err("Only HTTP scheme is supported.".to_string());
    assert_eq!(expected, Url::try_from(url));
}

#[test]
fn test_url_reparse_is_same_record() {
    let url = "http://example.com:8888/index.html?a=123&b=456";
    let first = Url::try_from(url).expect("failed to parse url");
    let again = Url::try_from(url).expect("failed to parse url");
    assert_eq!(first, again);
    assert_eq!(first.host(), again.host());
    assert_eq!(first.port(), again.port());
    assert_eq!(first.path(), again.path());
    assert_eq!(first.params(), again.params());
}

#[test]
fn test_host_with_empty_path() {
    let url = "http://example.com/";
    let u = Url::try_from(url).expect("failed to parse url");
    assert_eq!(u.host(), "example.com".to_string());
    assert_eq!(u.port(), "80".to_string());
    assert_eq!(u.path(), String::new());
    assert_eq!(u.params(), String::new());
}
