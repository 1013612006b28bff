use flowdom::dom::NodeTrace;
use flowdom::html::parse_html;
use flowdom::layout::{FixedMeasure, LayoutState, Rect};
use flowdom::walk::VisitEvent;

fn fm() -> FixedMeasure {
    FixedMeasure { char_width: 10, text_height: 32 }
}

fn attrs(v: Vec<(&str, &str)>) -> Vec<(String, String)> {
    v.into_iter()
        .map(|(k, val)| (k.to_string(), val.to_string()))
        .collect()
}

#[test]
fn body_text_is_drawn_and_the_cursor_advances() {
    let doc = parse_html("<html><body>hi</body></html>".to_string()).unwrap();
    let mut state = LayoutState::new();
    doc.layout_document(&mut state, &fm());
    assert_eq!(state.texts.len(), 1);
    assert_eq!(state.texts[0].text, "hi".to_string());
    assert_eq!(state.texts[0].x, 25);
    assert_eq!(state.texts[0].y, 156);
    assert_eq!(state.texts[0].color, "#000000".to_string());
    // two characters at width ten, then the default word gap of eight
    assert_eq!(state.cursor, (25 + 20 + 8, 156));
}

#[test]
fn body_attributes_set_background_and_text_color() {
    let doc = parse_html(
        r##"<html><body bgcolor="#cccccc" text="#ffffff">x</body></html>"##.to_string(),
    )
    .unwrap();
    let mut state = LayoutState::new();
    doc.layout_document(&mut state, &fm());
    assert_eq!(state.background, Some("#cccccc".to_string()));
    assert_eq!(state.current_color, "#ffffff".to_string());
    assert_eq!(state.texts[0].color, "#ffffff".to_string());
}

#[test]
fn anchors_record_hit_boxes_with_the_link_target() {
    let doc =
        parse_html(r##"<html><body><a href="link.html">go</a></body></html>"##.to_string())
            .unwrap();
    let mut state = LayoutState::new();
    doc.layout_document(&mut state, &fm());
    assert_eq!(state.hyper_links.len(), 1);
    let (rect, target) = state.hyper_links[0].clone();
    assert_eq!(target, "link.html".to_string());
    assert_eq!(
        rect,
        Rect { left: 25, top: 156 - 32, right: 25 + 20, bottom: 156 }
    );
    assert_eq!(state.texts[0].color, "#0055ff".to_string());
}

#[test]
fn the_title_is_collected_space_joined() {
    let doc = parse_html(
        "<html><head><title>sample web page</title></head></html>".to_string(),
    )
    .unwrap();
    let mut state = LayoutState::new();
    doc.layout_document(&mut state, &fm());
    assert_eq!(state.page_title, Some("sample web page ".to_string()));
}

#[test]
fn br_and_div_break_the_line() {
    let doc =
        parse_html("<html><body>a<br />b<div>c</div></body></html>".to_string()).unwrap();
    let mut state = LayoutState::new();
    doc.layout_document(&mut state, &fm());
    // "a" is drawn on the first line; after <br /> the cursor returns to the
    // margin one line down, where "b" is drawn; "c" follows "b" on the same
    // line; leaving the div breaks the line once more
    assert_eq!(state.texts[0].text, "a".to_string());
    assert_eq!((state.texts[0].x, state.texts[0].y), (25, 156));
    assert_eq!(state.texts[1].text, "b".to_string());
    assert_eq!((state.texts[1].x, state.texts[1].y), (25, 156 + 36));
    assert_eq!(state.texts[2].text, "c".to_string());
    assert_eq!((state.texts[2].x, state.texts[2].y), (25 + 10 + 8, 156 + 36));
    assert_eq!(state.cursor, (25, 156 + 36 + 36));
}

#[test]
fn flex_gap_overrides_spacing_for_later_children() {
    let doc = parse_html(
        r##"<html><body><div style="display: flex; gap: 12px;"><p>a</p><p>b</p></div></body></html>"##
            .to_string(),
    )
    .unwrap();
    let mut state = LayoutState::new();
    doc.layout_document(&mut state, &fm());
    // the first paragraph adds no spacing of its own; the second one's
    // gap-left override adds twelve units after it
    // a: text 10 + word gap 8; b: text 10 + word gap 8; p[1] gap 12
    let xs: Vec<i64> = state.texts.iter().map(|t| t.x).collect();
    assert_eq!(state.texts.len(), 2);
    assert_eq!(xs[0], 25);
    assert_eq!(xs[1], 25 + 10 + 8 + 12);
}

#[test]
fn a_recorded_override_wins_over_the_word_gap_on_text_leaves() {
    let doc = parse_html(
        r##"<html><body><span style="display: flex; gap: 12px;"><p>x</p><p>y z</p></span>w</body></html>"##
            .to_string(),
    )
    .unwrap();
    let mut state = LayoutState::new();
    doc.layout_document(&mut state, &fm());
    // x: drawn at the margin, width ten, word gap eight; entering p[1] adds
    // its twelve-unit override; y follows with the word gap; z, the leaf at
    // position one inside p[1], finds the container's override under its own
    // key, so it advances by twelve instead of the default eight — which
    // shows in where w lands
    let xs: Vec<i64> = state.texts.iter().map(|t| t.x).collect();
    assert_eq!(state.texts.len(), 4);
    assert_eq!(xs, vec![25, 25 + 10 + 8 + 12, 55 + 10 + 8, 73 + 10 + 12]);
}

#[test]
fn overrides_are_written_on_enter_and_scoped_to_the_subtree() {
    let doc = parse_html(
        r##"<div style="display: flex; gap: 12px;"><p>a</p><p>b</p></div>"##.to_string(),
    )
    .unwrap();
    let mut state = LayoutState::new();
    let mut trace = NodeTrace(vec![
        ("html".to_string(), attrs(vec![])),
        ("body".to_string(), attrs(vec![])),
    ]);

    // entering the flex container alone writes the override for its second
    // child
    flowdom::layout::layout_enter(
        &mut state,
        &NodeTrace(vec![
            ("html".to_string(), attrs(vec![])),
            ("body".to_string(), attrs(vec![])),
            ("div".to_string(), attrs(vec![("style", "display: flex; gap: 12px;")])),
        ]),
        &doc.name,
        0,
        &doc.attributes,
        &doc.children,
        &doc.text_node,
        &fm(),
    );
    assert_eq!(
        state.layout.get("html:body:div:p[1].gap-left"),
        Some("12px".to_string())
    );

    // a full visit of the subtree removes everything it introduced: once a
    // following sibling is entered, no entry of the subtree is left
    let mut state2 = LayoutState::new();
    doc.layout_walk(&mut trace, 0, &mut state2, &fm());
    assert_eq!(state2.layout.get("html:body:div:p[1].gap-left"), None);
    assert!(state2.layout.entries.is_empty());
    flowdom::layout::layout_enter(
        &mut state2,
        &NodeTrace(vec![
            ("html".to_string(), attrs(vec![])),
            ("body".to_string(), attrs(vec![])),
            ("p".to_string(), attrs(vec![])),
        ]),
        &"p".to_string(),
        1,
        &attrs(vec![]),
        &vec![],
        &None,
        &fm(),
    );
    assert_eq!(state2.layout.get("html:body:div:p[1].gap-left"), None);
}

#[test]
fn walk_visits_every_node_once_in_document_order() {
    let doc = parse_html("<a><b></b>x</a>".to_string()).unwrap();
    let events = doc.walk();
    let mut names: Vec<(bool, String)> = Vec::new();
    for ev in &events {
        match ev {
            VisitEvent::Enter { name, .. } => names.push((true, name.clone())),
            VisitEvent::Leave { name, .. } => names.push((false, name.clone())),
        }
    }
    assert_eq!(
        names,
        vec![
            (true, "a".to_string()),
            (true, "b".to_string()),
            (false, "b".to_string()),
            (true, "textNode".to_string()),
            (false, "textNode".to_string()),
            (false, "a".to_string()),
        ]
    );
}

#[test]
fn the_trace_lists_the_non_text_ancestors() {
    let doc = parse_html("<a><b>x</b></a>".to_string()).unwrap();
    let events = doc.walk();
    // the text leaf's enter: the trace holds a then b, and never the leaf
    let mut seen = false;
    for ev in &events {
        if let VisitEvent::Enter { trace, name, index, text_node, .. } = ev {
            if name == "textNode" {
                seen = true;
                let names: Vec<String> = trace.names();
                assert_eq!(names, vec!["a".to_string(), "b".to_string()]);
                assert_eq!(*index, 0);
                assert_eq!(text_node, &Some("x".to_string()));
            }
        }
    }
    assert!(seen);
}

#[test]
fn walk_trace_is_restored_after_the_call() {
    let doc = parse_html("<a><b>x</b></a>".to_string()).unwrap();
    let mut trace = NodeTrace(vec![("html".to_string(), attrs(vec![]))]);
    let mut out = Vec::new();
    doc.walk_trace(&mut trace, 0, &mut out);
    assert_eq!(trace, NodeTrace(vec![("html".to_string(), attrs(vec![]))]));
}
