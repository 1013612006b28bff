use flowdom::dom::HtmlElement;
use flowdom::html::parse_html;

fn el(name: &str, attrs: Vec<(&str, &str)>, children: Vec<HtmlElement>) -> HtmlElement {
    HtmlElement {
        name: name.to_string(),
        attributes: attrs
            .into_iter()
            .map(|(k, v)| (k.to_string(), v.to_string()))
            .collect(),
        children,
        text_node: None,
    }
}

fn txt(word: &str) -> HtmlElement {
    HtmlElement {
        name: "textNode".to_string(),
        attributes: vec![],
        children: vec![],
        text_node: Some(word.to_string()),
    }
}

#[test]
fn test_parse_html() {
    let cases = vec![
        (
            r##"<html>
  <head>
    <title>sample web page</title>
  </head>
  <body bgcolor="#cccccc" text="#ffffff">
    Hello, world! This is a <a href="link1.html">link</a>. This is <br /> a new line. And a new <a href="link2.html">link</a>.
  </body>
</html>
"##,
            el(
                "html",
                vec![],
                vec![
                    el(
                        "head",
                        vec![],
                        vec![el(
                            "title",
                            vec![],
                            vec![txt("sample"), txt("web"), txt("page")],
                        )],
                    ),
                    el(
                        "body",
                        vec![("bgcolor", "#cccccc"), ("text", "#ffffff")],
                        vec![
                            txt("Hello,"),
                            txt("world!"),
                            txt("This"),
                            txt("is"),
                            txt("a"),
                            el("a", vec![("href", "link1.html")], vec![txt("link")]),
                            txt("."),
                            txt("This"),
                            txt("is"),
                            el("br", vec![], vec![]),
                            txt("a"),
                            txt("new"),
                            txt("line."),
                            txt("And"),
                            txt("a"),
                            txt("new"),
                            el("a", vec![("href", "link2.html")], vec![txt("link")]),
                            txt("."),
                        ],
                    ),
                ],
            ),
        ),
        (
            r##"<a href="link.html">LINK</a>"##,
            el("a", vec![("href", "link.html")], vec![txt("LINK")]),
        ),
        (
            r##"<!DOCTYPE html>
<html lang="en">
<head>
  <meta charset="UTF-8">
  <meta name="viewport" content="width=device-width, initial-scale=1.0">
  <title>Document</title>
</head>
<body>

</body>
</html>"##,
            el(
                "html",
                vec![("lang", "en")],
                vec![
                    el(
                        "head",
                        vec![],
                        vec![
                            el("meta", vec![("charset", "UTF-8")], vec![]),
                            el(
                                "meta",
                                vec![
                                    ("name", "viewport"),
                                    ("content", "width=device-width, initial-scale=1.0"),
                                ],
                                vec![],
                            ),
                            el("title", vec![], vec![txt("Document")]),
                        ],
                    ),
                    el("body", vec![], vec![]),
                ],
            ),
        ),
    ];

    for (str, want) in cases {
        assert_eq!(parse_html(str.to_string()).unwrap(), want);
    }
}

#[test]
fn test_smoke_parse_html() {
    let cases = vec![
        r###"
        <!DOCTYPE html>
        <html lang="ja">
            <head prefix="og: https://ogp.me/ns#">
                <meta charSet="utf-8"/>
                <link rel="preload" href="/_next/static/media/08404bcfb1dae67a-s.p.woff2" as="font" crossorigin="" type="font/woff2"/>
                <script src="/_next/static/chunks/fd9d1056-0bb21fb122762d6f.js" async="" crossorigin=""></script>
            </head>
        </html>
        "###,
    ];

    for case in cases {
        parse_html(case.to_string()).unwrap();
    }
}

#[test]
fn words_become_one_leaf_each_in_order() {
    let got = parse_html("<p>one two three</p>".to_string()).unwrap();
    assert_eq!(got.children.len(), 3);
    assert_eq!(got.children[0], txt("one"));
    assert_eq!(got.children[1], txt("two"));
    assert_eq!(got.children[2], txt("three"));
}

#[test]
fn meta_has_no_children_and_no_closing_tag() {
    let got = parse_html(r##"<head><meta charset="UTF-8"><b></b></head>"##.to_string()).unwrap();
    assert_eq!(
        got,
        el(
            "head",
            vec![],
            vec![
                el("meta", vec![("charset", "UTF-8")], vec![]),
                el("b", vec![], vec![]),
            ],
        )
    );
}

#[test]
fn script_content_is_discarded_verbatim() {
    let got =
        parse_html("<script>if a < b { lots of <nested> stuff } </script>".to_string()).unwrap();
    assert_eq!(got, el("script", vec![], vec![]));
}

#[test]
fn self_closing_elements_have_no_children() {
    let got = parse_html("<br />".to_string()).unwrap();
    assert_eq!(got, el("br", vec![], vec![]));
    let got = parse_html(r##"<img src="x.png" />"##.to_string()).unwrap();
    assert_eq!(got, el("img", vec![("src", "x.png")], vec![]));
}

#[test]
fn mismatched_closing_tag_fails() {
    let err = parse_html("<a></b>".to_string()).unwrap_err();
    assert_eq!(err.position, 5);
}

#[test]
fn nested_mismatch_reports_the_enclosing_element() {
    let err = parse_html("<a><b></c></a>".to_string()).unwrap_err();
    assert_eq!(err.position, 8);
    // innermost note first: the token window at the failing element, then
    // the enclosing element's name
    assert_eq!(err.context.len(), 2);
    assert!(err.context[0].starts_with("element with "));
    assert_eq!(err.context[1], "children of a".to_string());
}

#[test]
fn truncated_input_fails() {
    assert!(parse_html("<a>".to_string()).is_err());
    assert!(parse_html("<a".to_string()).is_err());
    assert!(parse_html("<".to_string()).is_err());
    assert!(parse_html("".to_string()).is_err());
    assert!(parse_html("<script>never closed".to_string()).is_err());
}

#[test]
fn attribute_shape_is_enforced() {
    let err = parse_html("<a href></a>".to_string()).unwrap_err();
    assert_eq!(err.position, 3);
    let err = parse_html(r##"<a href=nope></a>"##.to_string()).unwrap_err();
    assert_eq!(err.position, 4);
}

#[test]
fn duplicate_attributes_are_kept_in_order() {
    let got = parse_html(r##"<a x="1" x="2"></a>"##.to_string()).unwrap();
    assert_eq!(
        got.attributes,
        vec![
            ("x".to_string(), "1".to_string()),
            ("x".to_string(), "2".to_string()),
        ]
    );
}
