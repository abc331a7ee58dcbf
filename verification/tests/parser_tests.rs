use saba_core::attribute::Attribute;
use saba_core::dom::{Element, NodeKind};
use saba_core::parser::HtmlParser;
use saba_core::token::HtmlTokenizer;

#[test]
fn parser_test_empty() {
    let html = String::new();
    let tokenizer = HtmlTokenizer::new(html);
    let window = HtmlParser::new(tokenizer).construct_tree();
    let document = window.document();
    assert_eq!(*window.kind(document), NodeKind::Document);
    assert!(window.first_child(document).is_none());
}

#[test]
fn parser_test_body() {
    let html = "<html><head></head><body></body></html>".to_string();
    let tokenizer = HtmlTokenizer::new(html);
    let window = HtmlParser::new(tokenizer).construct_tree();
    let document = window.document();
    assert_eq!(*window.kind(document), NodeKind::Document);

    let html = window
        .first_child(document)
        .expect("failed to get a first child of document");
    assert_eq!(
        *window.kind(html),
        NodeKind::Element(Element::new("html", Vec::new()))
    );

    let head = window
        .first_child(html)
        .expect("failed to get a first child of html");
    assert_eq!(
        *window.kind(head),
        NodeKind::Element(Element::new("head", Vec::new()))
    );

    let body = window
        .next_sibling(head)
        .expect("failed to get a next sibling of head");
    assert_eq!(
        *window.kind(body),
        NodeKind::Element(Element::new("body", Vec::new()))
    );
}

#[test]
fn test_text() {
    let html = "<html><head></head><body>text</body></html>".to_string();
    let t = HtmlTokenizer::new(html);
    let window = HtmlParser::new(t).construct_tree();
    let document = window.document();
    assert_eq!(*window.kind(document), NodeKind::Document);

    let html = window
        .first_child(document)
        .expect("failed to get a first child of document");
    assert_eq!(
        *window.kind(html),
        NodeKind::Element(Element::new("html", Vec::new()))
    );

    let body = window
        .next_sibling(
            window
                .first_child(html)
                .expect("failed to get a first child of document"),
        )
        .expect("failed to get a next sibling of head");
    assert_eq!(
        *window.kind(body),
        NodeKind::Element(Element::new("body", Vec::new()))
    );

    let text = window
        .first_child(body)
        .expect("failed to get a first child of document");
    assert_eq!(*window.kind(text), NodeKind::Text("text".to_string()));
}

#[test]
fn test_multiple_nodes() {
    let html = "<html><head></head><body><p><a foo=bar>text</a></p></body></html>".to_string();
    let t = HtmlTokenizer::new(html);
    let window = HtmlParser::new(t).construct_tree();
    let document = window.document();

    let body = window
        .next_sibling(
            window
                .first_child(
                    window
                        .first_child(document)
                        .expect("failed to get a first child of document"),
                )
                .expect("failed to get a first child of document"),
        )
        .expect("failed to get a next sibling of head");
    assert_eq!(
        *window.kind(body),
        NodeKind::Element(Element::new("body", Vec::new()))
    );

    let p = window
        .first_child(body)
        .expect("failed to get a first child of body");
    assert_eq!(
        *window.kind(p),
        NodeKind::Element(Element::new("p", Vec::new()))
    );

    let mut attr = Attribute::new();
    attr.add_name_char('f');
    attr.add_name_char('o');
    attr.add_name_char('o');
    attr.add_value_char('b');
    attr.add_value_char('a');
    attr.add_value_char('r');
    let a = window
        .first_child(p)
        .expect("failed to get a first child of p");
    assert_eq!(
        *window.kind(a),
        NodeKind::Element(Element::new("a", vec![attr]))
    );

    let text = window
        .first_child(a)
        .expect("failed to get a first child of a");
    assert_eq!(*window.kind(text), NodeKind::Text("text".to_string()));
}

#[test]
fn test_tree_links_are_consistent() {
    let html = "<html><head></head><body></body></html>".to_string();
    let tokenizer = HtmlTokenizer::new(html);
    let window = HtmlParser::new(tokenizer).construct_tree();
    let document = window.document();

    let html = window.first_child(document).expect("document has a child");
    let head = window.first_child(html).expect("html has a child");
    let body = window.next_sibling(head).expect("head has a sibling");

    assert_eq!(window.parent(html), Some(document));
    assert_eq!(window.parent(head), Some(html));
    assert_eq!(window.parent(body), Some(html));
    assert_eq!(window.first_child(html), Some(head));
    assert_eq!(window.last_child(html), Some(body));
    assert_eq!(window.next_sibling(head), Some(body));
    assert_eq!(window.previous_sibling(body), Some(head));
    assert!(window.previous_sibling(head).is_none());
    assert!(window.next_sibling(body).is_none());
    assert_eq!(window.last_child(document), Some(html));
    assert!(window.next_sibling(html).is_none());
}

#[test]
fn test_text_runs_accumulate_in_one_node() {
    let html = "<html><head></head><body><p>ab c</p></body></html>".to_string();
    let tokenizer = HtmlTokenizer::new(html);
    let window = HtmlParser::new(tokenizer).construct_tree();
    let document = window.document();

    let html = window.first_child(document).expect("document has a child");
    let head = window.first_child(html).expect("html has a child");
    let body = window.next_sibling(head).expect("head has a sibling");
    let p = window.first_child(body).expect("body has a child");
    let text = window.first_child(p).expect("p has a child");
    assert_eq!(*window.kind(text), NodeKind::Text("ab c".to_string()));
    assert!(window.next_sibling(text).is_none());
}

#[test]
fn test_unmatched_end_tag_is_tolerated() {
    let html = "<html><head></head><body></p>text</body></html>".to_string();
    let tokenizer = HtmlTokenizer::new(html);
    let window = HtmlParser::new(tokenizer).construct_tree();
    let document = window.document();

    let html = window.first_child(document).expect("document has a child");
    let head = window.first_child(html).expect("html has a child");
    let body = window.next_sibling(head).expect("head has a sibling");
    assert_eq!(
        *window.kind(body),
        NodeKind::Element(Element::new("body", Vec::new()))
    );
    assert!(window.first_child(body).is_none());
}

#[test]
fn test_headings_nest_and_close() {
    let html = "<html><head></head><body><h1>x</h1><h2>y</h2></body></html>".to_string();
    let tokenizer = HtmlTokenizer::new(html);
    let window = HtmlParser::new(tokenizer).construct_tree();
    let document = window.document();

    let html = window.first_child(document).expect("document has a child");
    let head = window.first_child(html).expect("html has a child");
    let body = window.next_sibling(head).expect("head has a sibling");
    let h1 = window.first_child(body).expect("body has a child");
    assert_eq!(
        *window.kind(h1),
        NodeKind::Element(Element::new("h1", Vec::new()))
    );
    let h2 = window.next_sibling(h1).expect("h1 has a sibling");
    assert_eq!(
        *window.kind(h2),
        NodeKind::Element(Element::new("h2", Vec::new()))
    );
    let x = window.first_child(h1).expect("h1 has a child");
    assert_eq!(*window.kind(x), NodeKind::Text("x".to_string()));
}

#[test]
fn test_missing_tags_are_synthesized() {
    let html = "<p>text</p>".to_string();
    let tokenizer = HtmlTokenizer::new(html);
    let window = HtmlParser::new(tokenizer).construct_tree();
    let document = window.document();

    let html = window.first_child(document).expect("document has a child");
    assert_eq!(
        *window.kind(html),
        NodeKind::Element(Element::new("html", Vec::new()))
    );
    let head = window.first_child(html).expect("html has a child");
    assert_eq!(
        *window.kind(head),
        NodeKind::Element(Element::new("head", Vec::new()))
    );
    let body = window.next_sibling(head).expect("head has a sibling");
    assert_eq!(
        *window.kind(body),
        NodeKind::Element(Element::new("body", Vec::new()))
    );
    let p = window.first_child(body).expect("body has a child");
    assert_eq!(
        *window.kind(p),
        NodeKind::Element(Element::new("p", Vec::new()))
    );
    let text = window.first_child(p).expect("p has a child");
    assert_eq!(*window.kind(text), NodeKind::Text("text".to_string()));
}

#[test]
fn test_style_content_becomes_text() {
    let html = "<html><head><style>p{}</style></head><body></body></html>".to_string();
    let tokenizer = HtmlTokenizer::new(html);
    let window = HtmlParser::new(tokenizer).construct_tree();
    let document = window.document();

    let html = window.first_child(document).expect("document has a child");
    let head = window.first_child(html).expect("html has a child");
    let style = window.first_child(head).expect("head has a child");
    assert_eq!(
        *window.kind(style),
        NodeKind::Element(Element::new("style", Vec::new()))
    );
    let text = window.first_child(style).expect("style has a child");
    assert_eq!(*window.kind(text), NodeKind::Text("p{}".to_string()));
}

#[test]
fn test_characters_after_body_are_dropped() {
    let html = "<html><head></head><body></body> x</html>".to_string();
    let tokenizer = HtmlTokenizer::new(html);
    let window = HtmlParser::new(tokenizer).construct_tree();
    let document = window.document();

    let html = window.first_child(document).expect("document has a child");
    let head = window.first_child(html).expect("html has a child");
    let body = window.next_sibling(head).expect("head has a sibling");
    assert_eq!(
        *window.kind(body),
        NodeKind::Element(Element::new("body", Vec::new()))
    );
    assert!(window.first_child(body).is_none());
    assert!(window.next_sibling(body).is_none());
    assert_eq!(window.last_child(html), Some(body));
}
