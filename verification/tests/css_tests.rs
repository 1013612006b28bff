use flowdom::css::{parse_css, tokenize_css, Style, Token};

fn pairs(v: Vec<(&str, &str)>) -> Vec<(String, String)> {
    v.into_iter()
        .map(|(k, val)| (k.to_string(), val.to_string()))
        .collect()
}

#[test]
fn bare_declaration_list_has_no_selector() {
    let got = parse_css("color: red; display: flex;".to_string()).unwrap();
    assert_eq!(got.styles.len(), 1);
    assert_eq!(
        got.styles[0],
        Style {
            selector: None,
            rules: pairs(vec![("color", "red"), ("display", "flex")]),
        }
    );
}

#[test]
fn selector_block_keeps_its_selector() {
    let got = parse_css("p { color: blue; gap: 4px; }".to_string()).unwrap();
    assert_eq!(got.styles.len(), 1);
    assert_eq!(
        got.styles[0],
        Style {
            selector: Some("p".to_string()),
            rules: pairs(vec![("color", "blue"), ("gap", "4px")]),
        }
    );
}

#[test]
fn several_records_parse_in_order() {
    let got = parse_css("a { x: 1; } b { y: 2; }".to_string()).unwrap();
    assert_eq!(got.styles.len(), 2);
    assert_eq!(got.styles[0].selector, Some("a".to_string()));
    assert_eq!(got.styles[1].selector, Some("b".to_string()));
}

#[test]
fn empty_stylesheet_has_no_records() {
    let got = parse_css("".to_string()).unwrap();
    assert_eq!(got.styles.len(), 0);
}

#[test]
fn css_tokens_split_on_delimiters() {
    assert_eq!(
        tokenize_css("a{b:c;}"),
        vec![
            Token::Ident("a".to_string()),
            Token::LBrace,
            Token::Ident("b".to_string()),
            Token::Colon,
            Token::Ident("c".to_string()),
            Token::SemiColon,
            Token::RBrace,
        ]
    );
}

#[test]
fn record_must_open_with_brace_or_colon() {
    let err = parse_css("color red;".to_string()).unwrap_err();
    assert_eq!(err.position, 1);
}

#[test]
fn declaration_must_end_with_semicolon() {
    let err = parse_css("color: red".to_string()).unwrap_err();
    assert_eq!(err.position, 3);
}

#[test]
fn unclosed_block_fails() {
    let err = parse_css("p { color: red;".to_string()).unwrap_err();
    assert_eq!(err.position, 6);
}
