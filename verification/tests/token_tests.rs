use saba_core::attribute::Attribute;
use saba_core::token::{HtmlToken, HtmlTokenizer};

#[test]
fn token_test_empty() {
    let html = String::new();
    let mut tokenizer = HtmlTokenizer::new(html);
    assert!(tokenizer.next().is_none());
}

#[test]
fn test_start_and_end_tag() {
    let html = "<body></body>".to_string();
    let mut tokenizer = HtmlTokenizer::new(html);
    let expected = [
        HtmlToken::StartTag {
            tag: "body".to_string(),
            self_closing: false,
            attributes: Vec::new(),
        },
        HtmlToken::EndTag {
            tag: "body".to_string(),
        },
    ];
    for e in expected {
        assert_eq!(Some(e), tokenizer.next());
    }
}

#[test]
fn test_attributes() {
    let html = "<p class=\"A\" id='B' foo=bar></p>".to_string();
    let mut tokenizer = HtmlTokenizer::new(html);
    let mut attr1 = Attribute::new();
    attr1.add_name_char('c');
    attr1.add_name_char('l');
    attr1.add_name_char('a');
    attr1.add_name_char('s');
    attr1.add_name_char('s');
    attr1.add_value_char('A');

    let mut attr2 = Attribute::new();
    attr2.add_name_char('i');
    attr2.add_name_char('d');
    attr2.add_value_char('B');

    let mut attr3 = Attribute::new();
    attr3.add_name_char('f');
    attr3.add_name_char('o');
    attr3.add_name_char('o');
    attr3.add_value_char('b');
    attr3.add_value_char('a');
    attr3.add_value_char('r');

    let expected = [
        HtmlToken::StartTag {
            tag: "p".to_string(),
            self_closing: false,
            attributes: vec![attr1, attr2, attr3],
        },
        HtmlToken::EndTag {
            tag: "p".to_string(),
        },
    ];
    for e in expected {
        assert_eq!(Some(e), tokenizer.next());
    }
}

#[test]
fn test_self_closing_tag() {
    let html = "<img />".to_string();
    let mut tokenizer = HtmlTokenizer::new(html);
    let expected = [HtmlToken::StartTag {
        tag: "img".to_string(),
        self_closing: true,
        attributes: Vec::new(),
    }];
    for e in expected {
        assert_eq!(Some(e), tokenizer.next());
    }
}

#[test]
fn test_script_tag() {
    let html = "<script>js code;</script>".to_string();
    let mut tokenizer = HtmlTokenizer::new(html);
    let expected = [
        HtmlToken::StartTag {
            tag: "script".to_string(),
            self_closing: false,
            attributes: Vec::new(),
        },
        HtmlToken::Char('j'),
        HtmlToken::Char('s'),
        HtmlToken::Char(' '),
        HtmlToken::Char('c'),
        HtmlToken::Char('o'),
        HtmlToken::Char('d'),
        HtmlToken::Char('e'),
        HtmlToken::Char(';'),
        HtmlToken::EndTag {
            tag: "script".to_string(),
        },
    ];
    for e in expected {
        assert_eq!(Some(e), tokenizer.next());
    }
}

#[test]
fn test_uppercase_tag_names_are_lowercased() {
    let html = "<BODY CLASS=x></BODY>".to_string();
    let mut tokenizer = HtmlTokenizer::new(html);
    let mut attr = Attribute::new();
    attr.add_name_char('c');
    attr.add_name_char('l');
    attr.add_name_char('a');
    attr.add_name_char('s');
    attr.add_name_char('s');
    attr.add_value_char('x');
    let expected = [
        HtmlToken::StartTag {
            tag: "body".to_string(),
            self_closing: false,
            attributes: vec![attr],
        },
        HtmlToken::EndTag {
            tag: "body".to_string(),
        },
    ];
    for e in expected {
        assert_eq!(Some(e), tokenizer.next());
    }
}

#[test]
fn test_attribute_order_is_input_order() {
    let html = "<p zz=1 aa=2>".to_string();
    let mut tokenizer = HtmlTokenizer::new(html);
    match tokenizer.next() {
        Some(HtmlToken::StartTag { attributes, .. }) => {
            assert_eq!(attributes.len(), 2);
            assert_eq!(attributes[0].name(), "zz");
            assert_eq!(attributes[0].value(), "1");
            assert_eq!(attributes[1].name(), "aa");
            assert_eq!(attributes[1].value(), "2");
        }
        other => panic!("expected a start tag, got {:?}", other),
    }
}

#[test]
fn test_eof_is_produced_once_then_nothing() {
    let html = "<p".to_string();
    let mut tokenizer = HtmlTokenizer::new(html);
    assert_eq!(Some(HtmlToken::Eof), tokenizer.next());
    assert!(tokenizer.next().is_none());
    assert!(tokenizer.next().is_none());
}

#[test]
fn test_exhausted_text_input_yields_nothing_more() {
    let html = "ab".to_string();
    let mut tokenizer = HtmlTokenizer::new(html);
    assert_eq!(Some(HtmlToken::Char('a')), tokenizer.next());
    assert_eq!(Some(HtmlToken::Char('b')), tokenizer.next());
    assert!(tokenizer.next().is_none());
    assert!(tokenizer.next().is_none());
}

#[test]
fn test_quoted_attribute_value_keeps_spaces() {
    let html = "<p title=\"a b\">".to_string();
    let mut tokenizer = HtmlTokenizer::new(html);
    match tokenizer.next() {
        Some(HtmlToken::StartTag { tag, attributes, .. }) => {
            assert_eq!(tag, "p");
            assert_eq!(attributes.len(), 1);
            assert_eq!(attributes[0].name(), "title");
            assert_eq!(attributes[0].value(), "a b");
        }
        other => panic!("expected a start tag, got {:?}", other),
    }
}
