use flowdom::lex::{tokenize_html, Token};

#[test]
fn test_tokenize_html() {
    let cases = vec![
        (
            "<html></html>",
            vec![
                Token::LAngle,
                Token::Text("html".to_string()),
                Token::RAngle,
                Token::LAngle,
                Token::Slash,
                Token::Text("html".to_string()),
                Token::RAngle,
            ],
        ),
        (
            r##"<body bgcolor="#ffffff">This is a paragraph</body>"##,
            vec![
                Token::LAngle,
                Token::Text("body".to_string()),
                Token::Text("bgcolor".to_string()),
                Token::Equal,
                Token::QuotedText("#ffffff".to_string()),
                Token::RAngle,
                Token::Text("This".to_string()),
                Token::Text("is".to_string()),
                Token::Text("a".to_string()),
                Token::Text("paragraph".to_string()),
                Token::LAngle,
                Token::Slash,
                Token::Text("body".to_string()),
                Token::RAngle,
            ],
        ),
        (
            r##"<p hoge=""></p>"##,
            vec![
                Token::LAngle,
                Token::Text("p".to_string()),
                Token::Text("hoge".to_string()),
                Token::Equal,
                Token::QuotedText("".to_string()),
                Token::RAngle,
                Token::LAngle,
                Token::Slash,
                Token::Text("p".to_string()),
                Token::RAngle,
            ],
        ),
    ];

    for (str, want) in cases {
        assert_eq!(tokenize_html(str), want);
    }
}

#[test]
fn doctype_prefix_is_skipped() {
    assert_eq!(
        tokenize_html("<!DOCTYPE html><b></b>"),
        vec![
            Token::LAngle,
            Token::Text("b".to_string()),
            Token::RAngle,
            Token::LAngle,
            Token::Slash,
            Token::Text("b".to_string()),
            Token::RAngle,
        ]
    );
}

#[test]
fn quoted_text_swallows_everything_to_the_next_quote() {
    assert_eq!(
        tokenize_html(r##"a="x < y > z""##),
        vec![
            Token::Text("a".to_string()),
            Token::Equal,
            Token::QuotedText("x < y > z".to_string()),
        ]
    );
}

#[test]
fn unterminated_quote_runs_to_the_end() {
    assert_eq!(
        tokenize_html(r##""abc"##),
        vec![Token::QuotedText("abc".to_string())]
    );
}

#[test]
fn a_quote_ends_a_bare_text_run() {
    assert_eq!(
        tokenize_html(r##"a"b"c"##),
        vec![
            Token::Text("a".to_string()),
            Token::QuotedText("b".to_string()),
            Token::Text("c".to_string()),
        ]
    );
    assert_eq!(
        tokenize_html(r##"a"b"##),
        vec![
            Token::Text("a".to_string()),
            Token::QuotedText("b".to_string()),
        ]
    );
}

#[test]
fn slash_inside_a_word_stays_text() {
    assert_eq!(
        tokenize_html("a/b"),
        vec![Token::Text("a/b".to_string())]
    );
}
