use saba_core::browser::Browser;
use saba_core::client::HttpClient;
use saba_core::dom::ElementKind;
use saba_core::http::HttpResponse;
use saba_core::page::Page;
use saba_core::parser::HtmlParser;
use saba_core::token::HtmlTokenizer;
use saba_core::utils::convert_dom_to_string;

#[test]
fn test_request_message() {
    let client = HttpClient::new();
    let message = client.get_request_message("example.com", "index.html");
    assert_eq!(
        message,
        "GET /index.html HTTP/1.1\nHost: example.com\nAccept: text/html\nConnection: close\n\n"
    );
}

#[test]
fn test_element_kind_from_str() {
    assert_eq!(ElementKind::from_str("html"), Some(ElementKind::Html));
    assert_eq!(ElementKind::from_str("head"), Some(ElementKind::Head));
    assert_eq!(ElementKind::from_str("style"), Some(ElementKind::Style));
    assert_eq!(ElementKind::from_str("script"), Some(ElementKind::Script));
    assert_eq!(ElementKind::from_str("body"), Some(ElementKind::Body));
    assert_eq!(ElementKind::from_str("p"), Some(ElementKind::P));
    assert_eq!(ElementKind::from_str("h1"), Some(ElementKind::H1));
    assert_eq!(ElementKind::from_str("h2"), Some(ElementKind::H2));
    assert_eq!(ElementKind::from_str("h3"), Some(ElementKind::H3));
    assert_eq!(ElementKind::from_str("a"), Some(ElementKind::A));
    assert_eq!(ElementKind::from_str("div"), None);
    assert_eq!(ElementKind::from_str("HTML"), None);
}

#[test]
fn test_printer_output() {
    let html = "<html><head></head><body></body></html>".to_string();
    let tokenizer = HtmlTokenizer::new(html);
    let window = HtmlParser::new(tokenizer).construct_tree();
    let document = window.document();
    let printed = convert_dom_to_string(&window, Some(document));
    assert_eq!(
        printed,
        "\nDocument\n  Element(html)\n    Element(head)\n    Element(body)\n"
    );
}

#[test]
fn test_printer_with_text() {
    let html = "<html><head></head><body>hi</body></html>".to_string();
    let tokenizer = HtmlTokenizer::new(html);
    let window = HtmlParser::new(tokenizer).construct_tree();
    let document = window.document();
    let printed = convert_dom_to_string(&window, Some(document));
    assert_eq!(
        printed,
        "\nDocument\n  Element(html)\n    Element(head)\n    Element(body)\n      Text(hi)\n"
    );
}

#[test]
fn test_printer_without_root() {
    let html = String::new();
    let tokenizer = HtmlTokenizer::new(html);
    let window = HtmlParser::new(tokenizer).construct_tree();
    let printed = convert_dom_to_string(&window, None);
    assert_eq!(printed, "\n");
}

#[test]
fn test_page_receive_response() {
    let raw = "HTTP/1.1 200 OK\n\n<html><head></head><body>hi</body></html>".to_string();
    let response = HttpResponse::try_from(raw).expect("failed to parse http response");
    let mut page = Page::new();
    let printed = page.receive_response(response);
    assert_eq!(
        printed,
        "\nDocument\n  Element(html)\n    Element(head)\n    Element(body)\n      Text(hi)\n"
    );
}

#[test]
fn test_browser_dispatches_to_active_page() {
    let raw = "HTTP/1.1 200 OK\n\n<html><head></head><body></body></html>".to_string();
    let response = HttpResponse::try_from(raw).expect("failed to parse http response");
    let mut browser = Browser::new();
    let printed = browser.receive_response(response);
    assert_eq!(
        printed,
        "\nDocument\n  Element(html)\n    Element(head)\n    Element(body)\n"
    );
    let _page = browser.current_page();
}
