//! The flow-layout policy over one depth-first walk of the element tree.
//!
//! The engine mutates one caller-owned layout state: a text cursor, the
//! current text color, the collected hyperlink hit-boxes, the page title,
//! the body background, the drawn text runs, and the scope-tagged override
//! map of `display:flex`/`gap` spacing hints.  Glyph metrics come from a
//! fixed-advance measure, so the whole layout is a function of the tree
//! alone.  All coordinates are whole units; arithmetic saturates at the
//! ends of the machine range instead of wrapping.
use vstd::map::*;
use vstd::prelude::*;

use crate::css::{deep_style, deep_styles, parse_css, spec_parse_css, StyleModel};
use crate::error::Parse;
use crate::dom::{attr_lookup, deep_elem, deep_elems, trace_names, ElemModel, HtmlElement, NodeTrace, TraceModel};
use crate::overrides::{remove_prefixed, OverrideMap};
use crate::strutil::{dec_str, is_prefix, join_names, px_value, str_eq};

verus! {

/// The left margin where every line of text starts.
pub const LEFT_MARGIN: i64 = 25;

/// The height of one line of text.
pub const LINE_HEIGHT: i64 = 36;

/// The font size, which offsets a hyperlink hit-box against the text
/// baseline.
pub const FONT_SIZE: i64 = 32;

/// The default spacing after a word of text.
pub const TEXT_GAP: i64 = 8;

/// The top of the content area, below the window chrome.
pub const CONTENT_TOP: i64 = 120;

/// An axis-aligned box: a hyperlink's hit area.
#[derive(Debug, PartialEq, Eq, Structural, Clone, Copy)]
pub struct Rect {
    pub left: i64,
    pub top: i64,
    pub right: i64,
    pub bottom: i64,
}

/// The fixed-advance glyph metric: every character is `char_width` wide and
/// a run of text is `text_height` tall.
#[derive(Debug, PartialEq, Eq, Structural, Clone, Copy)]
pub struct FixedMeasure {
    pub char_width: i64,
    pub text_height: i64,
}

/// A number clamped into the machine range.
pub open spec fn clamp_i64(x: int) -> int {
    if x > i64::MAX {
        i64::MAX as int
    } else if x < i64::MIN {
        i64::MIN as int
    } else {
        x
    }
}

/// A length capped at the machine maximum.
pub open spec fn cap_len(n: nat) -> int {
    if n > i64::MAX {
        i64::MAX as int
    } else {
        n as int
    }
}

/// The width the fixed-advance measure reports for a run of text.
pub open spec fn measured_width(m: FixedMeasure, text: Seq<char>) -> int {
    clamp_i64(m.char_width * cap_len(text.len()))
}

/// One drawn run of text: the characters, the position, the color.
#[derive(Debug, PartialEq, Eq)]
pub struct TextCmd {
    pub text: String,
    pub x: i64,
    pub y: i64,
    pub color: String,
}

/// The caller-owned layout state the engine mutates.
pub struct LayoutState {
    pub cursor: (i64, i64),
    pub current_color: String,
    pub hyper_links: Vec<(Rect, String)>,
    pub layout: OverrideMap,
    pub page_title: Option<String>,
    pub background: Option<String>,
    pub texts: Vec<TextCmd>,
}

/// The model of the layout state.
pub struct StateModel {
    pub cursor: (int, int),
    pub current_color: Seq<char>,
    pub hyper_links: Seq<(Rect, Seq<char>)>,
    pub overrides: Map<Seq<char>, Seq<char>>,
    pub page_title: Option<Seq<char>>,
    pub background: Option<Seq<char>>,
    pub texts: Seq<(Seq<char>, int, int, Seq<char>)>,
}

pub open spec fn links_model(s: Seq<(Rect, String)>) -> Seq<(Rect, Seq<char>)> {
    s.map_values(|p: (Rect, String)| (p.0, p.1@))
}

pub open spec fn texts_model(s: Seq<TextCmd>) -> Seq<(Seq<char>, int, int, Seq<char>)> {
    s.map_values(|c: TextCmd| (c.text@, c.x as int, c.y as int, c.color@))
}

impl LayoutState {
    pub open spec fn deep(&self) -> StateModel {
        StateModel {
            cursor: (self.cursor.0 as int, self.cursor.1 as int),
            current_color: self.current_color@,
            hyper_links: links_model(self.hyper_links@),
            overrides: self.layout.as_map(),
            page_title: match self.page_title {
                Some(t) => Some(t@),
                None => None,
            },
            background: match self.background {
                Some(b) => Some(b@),
                None => None,
            },
            texts: texts_model(self.texts@),
        }
    }
}

/// The records a style attribute value yields: what the stylesheet parser
/// returns, or none at all when it fails.
pub open spec fn style_records(sv: Seq<char>) -> Seq<StyleModel> {
    match spec_parse_css(sv) {
        Parse::Done(sts, p) => sts,
        Parse::Fail(f) => Seq::empty(),
    }
}

/// The override key under which a node at child position `index` looks up
/// its own spacing: the joined trace names, the position, the hint's name.
pub open spec fn gap_key(names: Seq<Seq<char>>, index: int) -> Seq<char> {
    join_names(names) + seq!['['] + dec_str(index) + seq![']'] + ".gap-left"@
}

/// The override key a flex container writes for its child named
/// `child_name` at position `index`: the container's joined trace names,
/// the child's name, the position, the hint's name.
pub open spec fn child_key(names: Seq<Seq<char>>, child_name: Seq<char>, index: int) -> Seq<char> {
    join_names(names) + seq![':'] + child_name + seq!['['] + dec_str(index) + seq![']']
        + ".gap-left"@
}

/// The key prefix that owns every override a subtree writes: the joined
/// trace names of the subtree's root, then the separator.
pub open spec fn scope_prefix(names: Seq<Seq<char>>) -> Seq<char> {
    join_names(names) + seq![':']
}

/// The overrides one flex record writes: one entry per child after the
/// first.
pub open spec fn record_inserts(
    m: Map<Seq<char>, Seq<char>>,
    gap: Seq<char>,
    names: Seq<Seq<char>>,
    children: Seq<ElemModel>,
    i: int,
) -> Map<Seq<char>, Seq<char>>
    decreases children.len() - i,
{
    if i < 1 || i >= children.len() {
        m
    } else {
        record_inserts(m.insert(child_key(names, children[i].name, i), gap), gap, names, children, i + 1)
    }
}

/// The overrides every record of a style attribute writes, in order: a
/// record matters when its declarations give `display` the value `flex`
/// and bind `gap`.
pub open spec fn flex_inserts(
    m: Map<Seq<char>, Seq<char>>,
    records: Seq<StyleModel>,
    names: Seq<Seq<char>>,
    children: Seq<ElemModel>,
) -> Map<Seq<char>, Seq<char>>
    decreases records,
{
    if records.len() == 0 {
        m
    } else {
        let m1 = if attr_lookup(records[0].rules, "display"@) == Some("flex"@) {
            match attr_lookup(records[0].rules, "gap"@) {
                Some(gap) => record_inserts(m, gap, names, children, 1),
                None => m,
            }
        } else {
            m
        };
        flex_inserts(m1, records.drop_first(), names, children)
    }
}

/// The overrides after a node's style attribute has been read.
pub open spec fn style_step(
    st: StateModel,
    attrs: Seq<(Seq<char>, Seq<char>)>,
    names: Seq<Seq<char>>,
    children: Seq<ElemModel>,
) -> StateModel {
    match attr_lookup(attrs, "style"@) {
        Some(sv) => StateModel {
            overrides: flex_inserts(st.overrides, style_records(sv), names, children),
            ..st
        },
        None => st,
    }
}

/// The text of every descendant text leaf, each followed by one space.
pub open spec fn gather_text(e: ElemModel) -> Seq<char>
    decreases e,
{
    match e.text_node {
        Some(t) => t + seq![' '],
        None => gather_texts(e.children),
    }
}

pub open spec fn gather_texts(s: Seq<ElemModel>) -> Seq<char>
    decreases s,
{
    if s.len() == 0 {
        Seq::empty()
    } else {
        gather_text(s[0]) + gather_texts(s.drop_first())
    }
}

/// The body element's attributes, applied in order: `bgcolor` paints the
/// background, `text` sets the current text color.
pub open spec fn body_attrs_step(st: StateModel, attrs: Seq<(Seq<char>, Seq<char>)>) -> StateModel
    decreases attrs,
{
    if attrs.len() == 0 {
        st
    } else {
        let st1 = if attrs[0].0 == "bgcolor"@ {
            StateModel { background: Some(attrs[0].1), ..st }
        } else if attrs[0].0 == "text"@ {
            StateModel { current_color: attrs[0].1, ..st }
        } else {
            st
        };
        body_attrs_step(st1, attrs.drop_first())
    }
}

/// The hit-box of a link drawn at the cursor with the given metrics.
pub open spec fn link_rect(x: int, y: int, w: int, h: int) -> Rect {
    Rect {
        left: x as i64,
        top: clamp_i64(y - FONT_SIZE as int) as i64,
        right: clamp_i64(x + w) as i64,
        bottom: clamp_i64(clamp_i64(y + h) - FONT_SIZE as int) as i64,
    }
}

/// Drawing one text payload at the cursor: the drawn run, the hit-box when
/// the text stands in an anchor with an `href`, and the cursor moved right
/// by the measured width.
pub open spec fn text_step(
    st: StateModel,
    t2: TraceModel,
    text: Option<Seq<char>>,
    is_anchor: bool,
    m: FixedMeasure,
) -> StateModel {
    match text {
        None => st,
        Some(tn) => {
            let w = measured_width(m, tn);
            let h = m.text_height as int;
            let color = if is_anchor {
                "#0055ff"@
            } else {
                st.current_color
            };
            let st1 = StateModel {
                texts: st.texts.push((tn, st.cursor.0, st.cursor.1, color)),
                ..st
            };
            let st2 = if is_anchor && t2.len() > 0 {
                match attr_lookup(t2.last().1, "href"@) {
                    Some(href) => StateModel {
                        hyper_links: st1.hyper_links.push(
                            (link_rect(st.cursor.0, st.cursor.1, w, h), href),
                        ),
                        ..st1
                    },
                    None => st1,
                }
            } else {
                st1
            };
            StateModel { cursor: (clamp_i64(st.cursor.0 + w), st.cursor.1), ..st2 }
        },
    }
}

/// The spacing a node adds after its text: the override recorded for its
/// own synthetic key when one is present (zero when its value is not a
/// pixel number), else the default word gap for a text leaf, else nothing.
pub open spec fn gap_of(
    overrides: Map<Seq<char>, Seq<char>>,
    names: Seq<Seq<char>>,
    index: int,
    is_text: bool,
) -> int {
    let key = gap_key(names, index);
    if overrides.dom().contains(key) {
        match px_value(overrides[key]) {
            Some(g) => g as int,
            None => 0,
        }
    } else if is_text {
        TEXT_GAP as int
    } else {
        0
    }
}

/// The cursor after a node inside the body: `br` starts a new line;
/// anything else advances by its spacing.
pub open spec fn advance_step(
    st: StateModel,
    names: Seq<Seq<char>>,
    name: Seq<char>,
    index: int,
    is_text: bool,
) -> StateModel {
    if name == "br"@ {
        StateModel {
            cursor: (LEFT_MARGIN as int, clamp_i64(st.cursor.1 + LINE_HEIGHT as int)),
            ..st
        }
    } else {
        StateModel {
            cursor: (clamp_i64(st.cursor.0 + gap_of(st.overrides, names, index, is_text)), st.cursor.1),
            ..st
        }
    }
}

/// Entering one node: read its style attribute for flex spacing, then the
/// name- and ancestry-specific rules — a non-text node whose trace ends in
/// `title` (the title element itself) collects the page title from its
/// descendant text leaves; `body` reads its own attributes; anything below
/// `body` draws its text and advances the cursor.
pub open spec fn spec_enter(
    st: StateModel,
    t2: TraceModel,
    name: Seq<char>,
    index: int,
    attrs: Seq<(Seq<char>, Seq<char>)>,
    children: Seq<ElemModel>,
    text: Option<Seq<char>>,
    m: FixedMeasure,
) -> StateModel {
    let names = trace_names(t2);
    let st1 = style_step(st, attrs, names, children);
    if names.len() > 0 && names.last() == "title"@ {
        // the title element collects; its text leaves, whose trace also ends
        // in `title`, neither flow as body text nor disturb the collection
        if name != "textNode"@ {
            StateModel { page_title: Some(gather_texts(children)), ..st1 }
        } else {
            st1
        }
    } else if name == "body"@ {
        body_attrs_step(st1, attrs)
    } else if names.contains("body"@) {
        let is_anchor = names.len() > 0 && names.last() == "a"@;
        let is_text = text is Some;
        let st2 = text_step(st1, t2, text, is_anchor, m);
        advance_step(st2, names, name, index, is_text)
    } else {
        st1
    }
}

/// Leaving one node: a `div` forces a line break, and every override whose
/// key lies under the node's joined trace path is removed — the scope
/// cleanup that keeps a `gap-left` hint from leaking outside the subtree
/// that declared it.
pub open spec fn spec_leave(st: StateModel, t2: TraceModel, name: Seq<char>) -> StateModel {
    let st1 = if name == "div"@ {
        StateModel {
            cursor: (LEFT_MARGIN as int, clamp_i64(st.cursor.1 + LINE_HEIGHT as int)),
            ..st
        }
    } else {
        st
    };
    StateModel {
        overrides: remove_prefixed(st1.overrides, scope_prefix(trace_names(t2))),
        ..st1
    }
}

/// The layout state after one whole subtree, visited at child position
/// `index` under the trace `t`.
pub open spec fn spec_layout_elem(
    e: ElemModel,
    t: TraceModel,
    index: int,
    st: StateModel,
    m: FixedMeasure,
) -> StateModel
    decreases e,
{
    let t2 = crate::walk::trace_after_enter(e, t);
    let st1 = spec_enter(st, t2, e.name, index, e.attributes, e.children, e.text_node, m);
    let st2 = spec_layout_children(e.children, t2, 0, st1, m);
    spec_leave(st2, t2, e.name)
}

pub open spec fn spec_layout_children(
    s: Seq<ElemModel>,
    t: TraceModel,
    index: int,
    st: StateModel,
    m: FixedMeasure,
) -> StateModel
    decreases s,
{
    if s.len() == 0 {
        st
    } else {
        spec_layout_children(
            s.drop_first(),
            t,
            index + 1,
            spec_layout_elem(s[0], t, index, st, m),
            m,
        )
    }
}

/// Saturating addition: the exact sum, clamped into the machine range.
pub fn sat_add(a: i64, b: i64) -> (r: i64)
    ensures
        r as int == clamp_i64(a as int + b as int),
{
    match a.checked_add(b) {
        Some(v) => v,
        None => {
            if a >= 0 {
                i64::MAX
            } else {
                i64::MIN
            }
        },
    }
}

/// Saturating multiplication: the exact product, clamped into the machine
/// range.
pub fn sat_mul(a: i64, b: i64) -> (r: i64)
    ensures
        r as int == clamp_i64(a as int * b as int),
{
    match a.checked_mul(b) {
        Some(v) => v,
        None => {
            proof {
                if a > 0 && b > 0 {
                    assert(a as int * b as int > 0) by (nonlinear_arith)
                        requires
                            a > 0 && b > 0,
                    ;
                } else if a < 0 && b < 0 {
                    assert(a as int * b as int > 0) by (nonlinear_arith)
                        requires
                            a < 0 && b < 0,
                    ;
                } else {
                    assert(a as int * b as int <= 0) by (nonlinear_arith)
                        requires
                            !(a > 0 && b > 0) && !(a < 0 && b < 0),
                    ;
                }
            }
            if (a > 0) == (b > 0) {
                i64::MAX
            } else {
                i64::MIN
            }
        },
    }
}

impl FixedMeasure {
    /// The metrics of a run of text: its width and height under the fixed
    /// advance.
    pub fn measure(&self, text: &str) -> (r: (i64, i64))
        ensures
            r.0 as int == measured_width(*self, text@),
            r.1 == self.text_height,
    {
        let len = text.unicode_len();
        let li: i64 = if len as u64 > i64::MAX as u64 {
            i64::MAX
        } else {
            len as i64
        };
        proof {
            assert(li as int == cap_len(text@.len()));
        }
        (sat_mul(self.char_width, li), self.text_height)
    }
}

/// Whether any of the names equals `w`.
fn names_contain(names: &Vec<String>, w: &str) -> (r: bool)
    ensures
        r == names.deep_view().contains(w@),
{
    let n = names.len();
    let mut i: usize = 0;
    while i < n
        invariant
            n == names@.len(),
            i <= n,
            forall|j: int| 0 <= j < i ==> names.deep_view()[j] != w@,
        decreases n - i,
    {
        if str_eq(names[i].as_str(), w) {
            proof {
                assert(names.deep_view()[i as int] == w@);
            }
            return true;
        }
        i = i + 1;
    }
    proof {
        assert(!names.deep_view().contains(w@));
    }
    false
}

/// Whether the list of names is non-empty and ends with `w`.
fn last_name_is(names: &Vec<String>, w: &str) -> (r: bool)
    ensures
        r == (names.deep_view().len() > 0 && names.deep_view().last() == w@),
{
    if names.len() == 0 {
        return false;
    }
    str_eq(names[names.len() - 1].as_str(), w)
}

/// Appending one element appends its gathered text.
proof fn lemma_gather_texts_push(s: Seq<ElemModel>, x: ElemModel)
    ensures
        gather_texts(s.push(x)) == gather_texts(s) + gather_text(x),
    decreases s,
{
    if s.len() == 0 {
        assert(s.push(x)[0] == x);
        assert(s.push(x).drop_first() =~= Seq::<ElemModel>::empty());
        assert(gather_texts(s.push(x).drop_first()) == Seq::<char>::empty());
        assert(gather_texts(s.push(x)) =~= gather_texts(s) + gather_text(x));
    } else {
        assert(s.push(x)[0] == s[0]);
        assert(s.push(x).drop_first() =~= s.drop_first().push(x));
        lemma_gather_texts_push(s.drop_first(), x);
        assert(gather_texts(s.push(x)) =~= gather_texts(s) + gather_text(x));
    }
}

/// The text of every descendant text leaf of one element, each followed by
/// one space.
fn gather_text_exec(e: &HtmlElement) -> (r: String)
    ensures
        r@ == gather_text(deep_elem(*e)),
    decreases *e,
{
    match &e.text_node {
        Some(t) => {
            let mut s = t.clone();
            crate::strutil::push_char(&mut s, ' ');
            proof {
                assert(s@ =~= t@ + seq![' ']);
            }
            s
        },
        None => {
            let n = e.children.len();
            let mut s = String::new();
            let mut i: usize = 0;
            proof {
                assert(s@ =~= gather_texts(deep_elems(e.children@).take(0)));
            }
            while i < n
                invariant
                    n == e.children@.len(),
                    i <= n,
                    s@ == gather_texts(deep_elems(e.children@).take(i as int)),
                decreases n - i,
            {
                let part = gather_text_exec(&e.children[i]);
                s.append(part.as_str());
                proof {
                    let kids = deep_elems(e.children@);
                    crate::dom::lemma_deep_elems_len(e.children@);
                    crate::dom::lemma_deep_elems_index(e.children@, i as int);
                    assert(kids.take(i as int).push(kids[i as int]) =~= kids.take(i as int + 1));
                    lemma_gather_texts_push(kids.take(i as int), kids[i as int]);
                }
                i = i + 1;
            }
            proof {
                crate::dom::lemma_deep_elems_len(e.children@);
                assert(deep_elems(e.children@).take(n as int) =~= deep_elems(e.children@));
            }
            s
        },
    }
}

/// Applies a body element's attributes to the state, in order.
fn body_step_exec(state: &mut LayoutState, attrs: &Vec<(String, String)>)
    ensures
        final(state).deep() == body_attrs_step(old(state).deep(), attrs.deep_view()),
{
    let ghost a = attrs.deep_view();
    let n = attrs.len();
    let mut i: usize = 0;
    proof {
        assert(a.skip(0) =~= a);
    }
    while i < n
        invariant
            a == attrs.deep_view(),
            n == attrs@.len(),
            i <= n,
            body_attrs_step(old(state).deep(), a) == body_attrs_step(
                state.deep(),
                a.skip(i as int),
            ),
        decreases n - i,
    {
        proof {
            assert(a.skip(i as int)[0] == a[i as int]);
            assert(a.skip(i as int).drop_first() =~= a.skip(i as int + 1));
            assert(a[i as int].0 == attrs@[i as int].0@);
            assert(a[i as int].1 == attrs@[i as int].1@);
        }
        if str_eq(attrs[i].0.as_str(), "bgcolor") {
            state.background = Some(attrs[i].1.clone());
        } else if str_eq(attrs[i].0.as_str(), "text") {
            state.current_color = attrs[i].1.clone();
        }
        i = i + 1;
    }
    proof {
        assert(a.skip(n as int) =~= Seq::<(Seq<char>, Seq<char>)>::empty());
    }
}

/// Writes one flex record's overrides: one entry per child after the
/// first, keyed by the container's joined trace names, the child's name
/// and its position.
fn apply_record(
    layout: &mut OverrideMap,
    gap: &String,
    joined: &String,
    children: &Vec<HtmlElement>,
    names: Ghost<Seq<Seq<char>>>,
)
    requires
        joined@ == join_names(names@),
    ensures
        final(layout).as_map() == record_inserts(
            old(layout).as_map(),
            gap@,
            names@,
            deep_elems(children@),
            1,
        ),
{
    let ghost kids = deep_elems(children@);
    proof {
        crate::dom::lemma_deep_elems_len(children@);
    }
    let n = children.len();
    let mut i: usize = 1;
    while i < n
        invariant
            joined@ == join_names(names@),
            kids == deep_elems(children@),
            kids.len() == n,
            n == children@.len(),
            1 <= i,
            i <= n || i == 1,
            record_inserts(old(layout).as_map(), gap@, names@, kids, 1) == record_inserts(
                layout.as_map(),
                gap@,
                names@,
                kids,
                i as int,
            ),
        decreases n - i,
    {
        let mut key = String::new();
        key.append(joined.as_str());
        crate::strutil::push_char(&mut key, ':');
        key.append(children[i].name.as_str());
        crate::strutil::push_char(&mut key, '[');
        let num = crate::strutil::usize_to_string(i);
        key.append(num.as_str());
        crate::strutil::push_char(&mut key, ']');
        key.append(".gap-left");
        proof {
            crate::dom::lemma_deep_elems_index(children@, i as int);
            assert(key@ =~= child_key(names@, kids[i as int].name, i as int));
        }
        layout.insert(key, gap.clone());
        i = i + 1;
    }
    proof {
        if n == 0 {
            assert(record_inserts(layout.as_map(), gap@, names@, kids, 1) == layout.as_map());
        } else {
            assert(record_inserts(layout.as_map(), gap@, names@, kids, n as int)
                == layout.as_map());
        }
    }
}

/// Reads a node's style attribute, if any, and writes the overrides its
/// flex records call for.
fn style_step_exec(
    state: &mut LayoutState,
    attrs: &Vec<(String, String)>,
    joined: &String,
    children: &Vec<HtmlElement>,
    names: Ghost<Seq<Seq<char>>>,
)
    requires
        joined@ == join_names(names@),
    ensures
        final(state).deep() == style_step(
            old(state).deep(),
            attrs.deep_view(),
            names@,
            deep_elems(children@),
        ),
{
    let sv = match crate::dom::find_attr(attrs, "style") {
        Some(sv) => sv,
        None => {
            return ;
        },
    };
    let records = match parse_css(sv.clone()) {
        Ok(s) => s.styles,
        Err(e) => Vec::new(),
    };
    proof {
        assert(deep_styles(records@) =~= style_records(sv@));
    }
    let ghost recs = deep_styles(records@);
    let ghost kids = deep_elems(children@);
    let n = records.len();
    let mut i: usize = 0;
    proof {
        assert(recs.skip(0) =~= recs);
    }
    while i < n
        invariant
            joined@ == join_names(names@),
            recs == deep_styles(records@),
            kids == deep_elems(children@),
            n == records@.len(),
            i <= n,
            flex_inserts(old(state).layout.as_map(), recs, names@, kids) == flex_inserts(
                state.layout.as_map(),
                recs.skip(i as int),
                names@,
                kids,
            ),
            state.cursor == old(state).cursor,
            state.current_color == old(state).current_color,
            state.hyper_links == old(state).hyper_links,
            state.page_title == old(state).page_title,
            state.background == old(state).background,
            state.texts == old(state).texts,
        decreases n - i,
    {
        proof {
            assert(recs.skip(i as int)[0] == recs[i as int]);
            assert(recs.skip(i as int).drop_first() =~= recs.skip(i as int + 1));
            assert(recs[i as int] == deep_style(records@[i as int]));
        }
        let is_flex = match crate::dom::find_attr(&records[i].rules, "display") {
            Some(d) => str_eq(d.as_str(), "flex"),
            None => false,
        };
        if is_flex {
            match crate::dom::find_attr(&records[i].rules, "gap") {
                Some(gap) => {
                    apply_record(&mut state.layout, &gap, joined, children, names);
                },
                None => {},
            }
        }
        i = i + 1;
    }
    proof {
        assert(recs.skip(n as int) =~= Seq::<StyleModel>::empty());
    }
}

/// Entering one node of the walk: the style attribute's flex overrides,
/// then the name- and ancestry-specific layout rules.
pub fn layout_enter(
    state: &mut LayoutState,
    trace: &NodeTrace,
    name: &String,
    index: usize,
    attributes: &Vec<(String, String)>,
    children: &Vec<HtmlElement>,
    text_node: &Option<String>,
    fm: &FixedMeasure,
)
    ensures
        final(state).deep() == spec_enter(
            old(state).deep(),
            trace.deep(),
            name@,
            index as int,
            attributes.deep_view(),
            deep_elems(children@),
            text_node.deep_view(),
            *fm,
        ),
{
    let names_vec = trace.names();
    let ghost names = trace_names(trace.deep());
    let joined = crate::strutil::join_colon(&names_vec);
    style_step_exec(state, attributes, &joined, children, Ghost(names));
    let ghost st1 = state.deep();

    if last_name_is(&names_vec, "title") {
        if !str_eq(name.as_str(), "textNode") {
            let title = gather_texts_exec_all(children);
            state.page_title = Some(title);
        }
        return ;
    }
    if str_eq(name.as_str(), "body") {
        body_step_exec(state, attributes);
        return ;
    }
    if !names_contain(&names_vec, "body") {
        return ;
    }
    let is_anchor = last_name_is(&names_vec, "a");
    let is_text = matches!(text_node, Some(_));
    match text_node {
        Some(tn) => {
            let px = state.cursor.0;
            let py = state.cursor.1;
            let wh = fm.measure(tn.as_str());
            let w = wh.0;
            let h = wh.1;
            let color = if is_anchor {
                String::from_str("#0055ff")
            } else {
                state.current_color.clone()
            };
            let ghost color_view = color@;
            let cmd = TextCmd { text: tn.clone(), x: px, y: py, color };
            proof {
                assert(texts_model(state.texts@.push(cmd)) =~= texts_model(state.texts@).push(
                    (tn@, px as int, py as int, color_view),
                ));
            }
            state.texts.push(cmd);
            if is_anchor {
                let tlen = trace.0.len();
                if tlen > 0 {
                    proof {
                        assert(trace.deep().last() == trace.0@[tlen - 1].deep_view());
                    }
                    match crate::dom::find_attr(&trace.0[tlen - 1].1, "href") {
                        Some(href) => {
                            let top = sat_add(py, -FONT_SIZE);
                            let right = sat_add(px, w);
                            let bottom = sat_add(sat_add(py, h), -FONT_SIZE);
                            let rect = Rect { left: px, top, right, bottom };
                            proof {
                                assert(rect == link_rect(px as int, py as int, w as int, h as int));
                                assert(links_model(state.hyper_links@.push((rect, href)))
                                    =~= links_model(state.hyper_links@).push((rect, href@)));
                            }
                            state.hyper_links.push((rect, href));
                        },
                        None => {},
                    }
                }
            }
            state.cursor.0 = sat_add(px, w);
        },
        None => {},
    }
    let ghost st2 = state.deep();
    proof {
        assert(st2 == text_step(st1, trace.deep(), text_node.deep_view(), is_anchor, *fm));
    }
    if str_eq(name.as_str(), "br") {
        state.cursor = (LEFT_MARGIN, sat_add(state.cursor.1, LINE_HEIGHT));
    } else {
        let mut key = String::new();
        key.append(joined.as_str());
        crate::strutil::push_char(&mut key, '[');
        let num = crate::strutil::usize_to_string(index);
        key.append(num.as_str());
        crate::strutil::push_char(&mut key, ']');
        key.append(".gap-left");
        proof {
            assert(key@ =~= gap_key(names, index as int));
        }
        let gap: i64 = match state.layout.get(key.as_str()) {
            Some(v) => {
                match crate::strutil::parse_px(v.as_str()) {
                    Some(g) => g as i64,
                    None => 0,
                }
            },
            None => {
                if is_text {
                    TEXT_GAP
                } else {
                    0
                }
            },
        };
        proof {
            assert(gap as int == gap_of(st2.overrides, names, index as int, is_text));
        }
        state.cursor.0 = sat_add(state.cursor.0, gap);
    }
}

/// The gathered text of a whole row of children.
fn gather_texts_exec_all(children: &Vec<HtmlElement>) -> (r: String)
    ensures
        r@ == gather_texts(deep_elems(children@)),
{
    let n = children.len();
    let mut s = String::new();
    let mut i: usize = 0;
    proof {
        assert(s@ =~= gather_texts(deep_elems(children@).take(0)));
    }
    while i < n
        invariant
            n == children@.len(),
            i <= n,
            s@ == gather_texts(deep_elems(children@).take(i as int)),
        decreases n - i,
    {
        let part = gather_text_exec(&children[i]);
        s.append(part.as_str());
        proof {
            let kids = deep_elems(children@);
            crate::dom::lemma_deep_elems_len(children@);
            crate::dom::lemma_deep_elems_index(children@, i as int);
            assert(kids.take(i as int).push(kids[i as int]) =~= kids.take(i as int + 1));
            lemma_gather_texts_push(kids.take(i as int), kids[i as int]);
        }
        i = i + 1;
    }
    proof {
        crate::dom::lemma_deep_elems_len(children@);
        assert(deep_elems(children@).take(n as int) =~= deep_elems(children@));
    }
    s
}

/// Leaving one node of the walk: a `div` forces a line break, then every
/// override keyed under the node's joined trace path is removed.
pub fn layout_leave(state: &mut LayoutState, trace: &NodeTrace, name: &String)
    ensures
        final(state).deep() == spec_leave(old(state).deep(), trace.deep(), name@),
{
    if str_eq(name.as_str(), "div") {
        state.cursor = (LEFT_MARGIN, sat_add(state.cursor.1, LINE_HEIGHT));
    }
    let names_vec = trace.names();
    let mut prefix = crate::strutil::join_colon(&names_vec);
    crate::strutil::push_char(&mut prefix, ':');
    proof {
        assert(prefix@ =~= scope_prefix(trace_names(trace.deep())));
    }
    state.layout.remove_prefix(prefix.as_str());
}

impl LayoutState {
    /// A fresh layout state: the cursor at the left margin of the first
    /// content line, black text, and nothing collected yet.
    pub fn new() -> (r: LayoutState)
        ensures
            r.deep().cursor == ((LEFT_MARGIN as int, (CONTENT_TOP + LINE_HEIGHT) as int)),
            r.deep().current_color == "#000000"@,
            r.deep().hyper_links == Seq::<(Rect, Seq<char>)>::empty(),
            r.deep().overrides == Map::<Seq<char>, Seq<char>>::empty(),
            r.deep().page_title is None,
            r.deep().background is None,
            r.deep().texts == Seq::<(Seq<char>, int, int, Seq<char>)>::empty(),
    {
        let r = LayoutState {
            cursor: (LEFT_MARGIN, CONTENT_TOP + LINE_HEIGHT),
            current_color: String::from_str("#000000"),
            hyper_links: Vec::new(),
            layout: OverrideMap::new(),
            page_title: None,
            background: None,
            texts: Vec::new(),
        };
        proof {
            assert(links_model(r.hyper_links@) =~= Seq::<(Rect, Seq<char>)>::empty());
            assert(texts_model(r.texts@) =~= Seq::<(Seq<char>, int, int, Seq<char>)>::empty());
        }
        r
    }
}

impl HtmlElement {
    /// Lays out this subtree at child position `index` under an explicit
    /// trace, mutating the caller's state, and restores the trace.
    pub fn layout_walk(
        &self,
        trace: &mut NodeTrace,
        index: usize,
        state: &mut LayoutState,
        fm: &FixedMeasure,
    )
        ensures
            final(trace).deep() == old(trace).deep(),
            final(state).deep() == spec_layout_elem(
                deep_elem(*self),
                old(trace).deep(),
                index as int,
                old(state).deep(),
                *fm,
            ),
        decreases *self,
    {
        let ghost t0 = trace.deep();
        let pushed = !self.is_text();
        if pushed {
            let entry = (self.name.clone(), crate::dom::clone_attrs(&self.attributes));
            proof {
                assert(entry.deep_view() == (self.name@, self.attributes.deep_view()));
            }
            trace.0.push(entry);
            proof {
                assert(trace.deep() =~= t0.push((self.name@, self.attributes.deep_view())));
            }
        }
        let ghost t2 = trace.deep();
        proof {
            assert(t2 == crate::walk::trace_after_enter(deep_elem(*self), t0));
        }
        layout_enter(
            state,
            trace,
            &self.name,
            index,
            &self.attributes,
            &self.children,
            &self.text_node,
            fm,
        );
        let ghost st1 = state.deep();
        let ghost kids = deep_elems(self.children@);
        proof {
            crate::dom::lemma_deep_elems_len(self.children@);
            assert(kids.skip(0) =~= kids);
        }
        let n = self.children.len();
        let mut i: usize = 0;
        while i < n
            invariant
                n == self.children@.len(),
                kids == deep_elems(self.children@),
                kids.len() == n,
                i <= n,
                trace.deep() == t2,
                spec_layout_children(kids, t2, 0, st1, *fm) == spec_layout_children(
                    kids.skip(i as int),
                    t2,
                    i as int,
                    state.deep(),
                    *fm,
                ),
            decreases n - i,
        {
            proof {
                crate::dom::lemma_deep_elems_index(self.children@, i as int);
                assert(kids.skip(i as int)[0] == kids[i as int]);
                assert(kids.skip(i as int).drop_first() =~= kids.skip(i as int + 1));
            }
            self.children[i].layout_walk(trace, i, state, fm);
            i = i + 1;
        }
        proof {
            assert(kids.skip(n as int) =~= Seq::<ElemModel>::empty());
        }
        layout_leave(state, trace, &self.name);
        if pushed {
            let ghost before = trace.0@;
            proof {
                assert(t2.len() == before.len());
                assert(before.len() == t0.len() + 1);
            }
            let _ = trace.0.pop();
            proof {
                assert(trace.0@ =~= before.drop_last());
                assert forall|j: int| 0 <= j < t0.len() implies trace.deep()[j] == t0[j] by {
                    assert(trace.deep()[j] == trace.0@[j].deep_view());
                    assert(before.drop_last()[j] == before[j]);
                    assert(t2[j] == before[j].deep_view());
                }
                assert(trace.deep().len() == t0.len());
                assert(trace.deep() =~= t0);
            }
        }
    }

    /// Lays out a whole document: one walk of the tree from an empty
    /// trace, mutating the caller's state.
    pub fn layout_document(&self, state: &mut LayoutState, fm: &FixedMeasure)
        ensures
            final(state).deep() == spec_layout_elem(
                deep_elem(*self),
                Seq::empty(),
                0,
                old(state).deep(),
                *fm,
            ),
    {
        let mut trace = NodeTrace(Vec::new());
        proof {
            assert(trace.deep() =~= Seq::<(Seq<char>, Seq<(Seq<char>, Seq<char>)>)>::empty());
        }
        self.layout_walk(&mut trace, 0, state, fm);
    }
}

/// Every key a flex container writes lies under its own scope prefix.
proof fn lemma_child_key_prefixed(names: Seq<Seq<char>>, child_name: Seq<char>, i: int)
    ensures
        is_prefix(scope_prefix(names), child_key(names, child_name, i)),
{
    let rest = child_name + seq!['['] + dec_str(i) + seq![']'] + ".gap-left"@;
    assert(child_key(names, child_name, i) =~= scope_prefix(names) + rest);
    crate::overrides::lemma_prefix_append(scope_prefix(names), rest);
}

/// One record's inserts vanish under the container's own scope removal.
proof fn lemma_record_inserts_scoped(
    m: Map<Seq<char>, Seq<char>>,
    gap: Seq<char>,
    names: Seq<Seq<char>>,
    children: Seq<ElemModel>,
    i: int,
)
    ensures
        remove_prefixed(record_inserts(m, gap, names, children, i), scope_prefix(names))
            == remove_prefixed(m, scope_prefix(names)),
    decreases children.len() - i,
{
    if i < 1 || i >= children.len() {
    } else {
        let key = child_key(names, children[i].name, i);
        lemma_child_key_prefixed(names, children[i].name, i);
        crate::overrides::lemma_rp_insert_dropped(m, scope_prefix(names), key, gap);
        lemma_record_inserts_scoped(m.insert(key, gap), gap, names, children, i + 1);
    }
}

/// Everything a style attribute writes vanishes under the container's own
/// scope removal.
proof fn lemma_flex_inserts_scoped(
    m: Map<Seq<char>, Seq<char>>,
    records: Seq<StyleModel>,
    names: Seq<Seq<char>>,
    children: Seq<ElemModel>,
)
    ensures
        remove_prefixed(flex_inserts(m, records, names, children), scope_prefix(names))
            == remove_prefixed(m, scope_prefix(names)),
    decreases records,
{
    if records.len() == 0 {
    } else {
        let m1 = if attr_lookup(records[0].rules, "display"@) == Some("flex"@) {
            match attr_lookup(records[0].rules, "gap"@) {
                Some(gap) => {
                    lemma_record_inserts_scoped(m, gap, names, children, 1);
                    record_inserts(m, gap, names, children, 1)
                },
                None => m,
            }
        } else {
            m
        };
        lemma_flex_inserts_scoped(m1, records.drop_first(), names, children);
    }
}

/// Reading the body's own attributes never touches the overrides.
proof fn lemma_body_attrs_overrides(st: StateModel, attrs: Seq<(Seq<char>, Seq<char>)>)
    ensures
        body_attrs_step(st, attrs).overrides == st.overrides,
    decreases attrs,
{
    if attrs.len() > 0 {
        let st1 = if attrs[0].0 == "bgcolor"@ {
            StateModel { background: Some(attrs[0].1), ..st }
        } else if attrs[0].0 == "text"@ {
            StateModel { current_color: attrs[0].1, ..st }
        } else {
            st
        };
        lemma_body_attrs_overrides(st1, attrs.drop_first());
    }
}

/// Entering a node changes the overrides only through its style attribute,
/// whose inserts all lie under the node's scope prefix.
proof fn lemma_enter_overrides_scoped(
    st: StateModel,
    t2: TraceModel,
    name: Seq<char>,
    index: int,
    attrs: Seq<(Seq<char>, Seq<char>)>,
    children: Seq<ElemModel>,
    text: Option<Seq<char>>,
    m: FixedMeasure,
)
    ensures
        remove_prefixed(
            spec_enter(st, t2, name, index, attrs, children, text, m).overrides,
            scope_prefix(trace_names(t2)),
        ) == remove_prefixed(st.overrides, scope_prefix(trace_names(t2))),
{
    let names = trace_names(t2);
    let st1 = style_step(st, attrs, names, children);
    match attr_lookup(attrs, "style"@) {
        Some(sv) => {
            lemma_flex_inserts_scoped(st.overrides, style_records(sv), names, children);
        },
        None => {},
    }
    if names.len() > 0 && names.last() == "title"@ {
    } else if name == "body"@ {
        lemma_body_attrs_overrides(st1, attrs);
    } else {
    }
}

/// The scope-cleanup law: once the traversal has left a subtree, no
/// override that was introduced during that subtree's visit is left in the
/// map — the whole visit acts on the overrides exactly as one removal of
/// the subtree's scope prefix.  Entries never leak to the siblings that
/// follow or to any later part of the walk.
///
/// The hypothesis is the data model's reserved-name invariant: text leaves
/// have no subtrees.  `crate::html::lemma_parsed_no_text_children`
/// discharges it for every tree the parser builds from a stream that does
/// not open a tag under the reserved name.
pub proof fn lemma_layout_scope(
    e: ElemModel,
    t: TraceModel,
    index: int,
    st: StateModel,
    m: FixedMeasure,
)
    requires
        crate::dom::no_text_children(e),
    ensures
        spec_layout_elem(e, t, index, st, m).overrides == remove_prefixed(
            st.overrides,
            scope_prefix(trace_names(crate::walk::trace_after_enter(e, t))),
        ),
    decreases e,
{
    let t2 = crate::walk::trace_after_enter(e, t);
    let names = trace_names(t2);
    let p = scope_prefix(names);
    let st1 = spec_enter(st, t2, e.name, index, e.attributes, e.children, e.text_node, m);
    let st2 = spec_layout_children(e.children, t2, 0, st1, m);
    lemma_enter_overrides_scoped(st, t2, e.name, index, e.attributes, e.children, e.text_node, m);
    if e.name == "textNode"@ {
        assert(e.children.len() == 0);
        assert(st2 == st1);
        crate::overrides::lemma_rp_idem(st1.overrides, p);
        assert(remove_prefixed(st1.overrides, p) == remove_prefixed(st.overrides, p));
        assert(spec_leave(st2, t2, e.name).overrides == remove_prefixed(st.overrides, p));
    } else {
        assert(t2.last() == (e.name, e.attributes));
        assert(names =~= trace_names(t).push(e.name));
        assert(names.len() > 0);
        lemma_layout_scope_children(e.children, t2, 0, st1, m);
        crate::overrides::lemma_rp_idem(st1.overrides, p);
        assert(remove_prefixed(st2.overrides, p) == remove_prefixed(st1.overrides, p));
        assert(spec_leave(st2, t2, e.name).overrides == remove_prefixed(st.overrides, p));
    }
}

/// The same law over a row of siblings: their visits, taken together, act
/// on the overrides as removals under the shared parent scope.
pub proof fn lemma_layout_scope_children(
    s: Seq<ElemModel>,
    t2: TraceModel,
    index: int,
    st: StateModel,
    m: FixedMeasure,
)
    requires
        crate::dom::no_text_children_all(s),
        trace_names(t2).len() > 0,
    ensures
        remove_prefixed(
            spec_layout_children(s, t2, index, st, m).overrides,
            scope_prefix(trace_names(t2)),
        ) == remove_prefixed(st.overrides, scope_prefix(trace_names(t2))),
    decreases s,
{
    let names = trace_names(t2);
    let p = scope_prefix(names);
    if s.len() == 0 {
        crate::overrides::lemma_rp_idem(st.overrides, p);
        assert(remove_prefixed(remove_prefixed(st.overrides, p), p) == remove_prefixed(
            st.overrides,
            p,
        ));
    } else {
        let c = s[0];
        assert(crate::dom::no_text_children(c));
        lemma_layout_scope(c, t2, index, st, m);
        let tc = crate::walk::trace_after_enter(c, t2);
        let pc = scope_prefix(trace_names(tc));
        let stc = spec_layout_elem(c, t2, index, st, m);
        if c.name == "textNode"@ {
            assert(trace_names(tc) == names);
            assert(pc == p);
            assert(p.subrange(0, p.len() as int) =~= p);
            assert(is_prefix(p, pc));
        } else {
            assert(trace_names(tc) =~= names.push(c.name));
            crate::strutil::lemma_join_push(names, c.name);
            assert(join_names(trace_names(tc)) == join_names(names) + seq![':'] + c.name);
            let rest = c.name + seq![':'];
            assert(pc =~= p + rest);
            crate::overrides::lemma_prefix_append(p, rest);
        }
        crate::overrides::lemma_rp_absorb(st.overrides, p, pc);
        assert(remove_prefixed(stc.overrides, p) == remove_prefixed(st.overrides, p));
        lemma_layout_scope_children(s.drop_first(), t2, index + 1, stc, m);
    }
}

} // verus!
