//! The parsed markup tree and its mathematical model.
//!
//! An element owns its children exclusively; a tree is immutable once built.
//! A leaf produced from a bare run of text has the reserved name `textNode`
//! and carries exactly one whitespace-delimited word; ordinary elements never
//! carry a text payload.
use vstd::prelude::*;

use crate::strutil::str_eq;

verus! {

/// One node of the parsed markup tree: a tagged element or a text leaf.
#[derive(Debug, PartialEq, Eq)]
pub struct HtmlElement {
    pub name: String,
    pub attributes: Vec<(String, String)>,
    pub children: Vec<HtmlElement>,
    pub text_node: Option<String>,
}

/// The model of an element: every string as its sequence of characters.
pub struct ElemModel {
    pub name: Seq<char>,
    pub attributes: Seq<(Seq<char>, Seq<char>)>,
    pub children: Seq<ElemModel>,
    pub text_node: Option<Seq<char>>,
}

pub open spec fn deep_elem(e: HtmlElement) -> ElemModel
    decreases e,
{
    ElemModel {
        name: e.name@,
        attributes: e.attributes.deep_view(),
        children: deep_elems(e.children@),
        text_node: match e.text_node {
            Some(t) => Some(t@),
            None => None,
        },
    }
}

pub open spec fn deep_elems(s: Seq<HtmlElement>) -> Seq<ElemModel>
    decreases s,
{
    if s.len() == 0 {
        Seq::empty()
    } else {
        seq![deep_elem(s[0])] + deep_elems(s.drop_first())
    }
}

pub broadcast proof fn lemma_deep_elems_len(s: Seq<HtmlElement>)
    ensures
        #[trigger] deep_elems(s).len() == s.len(),
    decreases s,
{
    if s.len() > 0 {
        lemma_deep_elems_len(s.drop_first());
    }
}

pub broadcast proof fn lemma_deep_elems_index(s: Seq<HtmlElement>, i: int)
    requires
        0 <= i < s.len(),
    ensures
        #[trigger] deep_elems(s)[i] == deep_elem(s[i]),
    decreases s,
{
    lemma_deep_elems_len(s);
    if i > 0 {
        lemma_deep_elems_index(s.drop_first(), i - 1);
    }
}

pub broadcast proof fn lemma_deep_elems_push(s: Seq<HtmlElement>, e: HtmlElement)
    ensures
        #[trigger] deep_elems(s.push(e)) == deep_elems(s).push(deep_elem(e)),
    decreases s,
{
    lemma_deep_elems_len(s);
    lemma_deep_elems_len(s.push(e));
    assert forall|i: int| 0 <= i < s.len() + 1 implies deep_elems(s.push(e))[i] == deep_elems(
        s,
    ).push(deep_elem(e))[i] by {
        lemma_deep_elems_index(s.push(e), i);
        if i < s.len() {
            lemma_deep_elems_index(s, i);
            assert(s.push(e)[i] == s[i]);
        }
    }
    assert(deep_elems(s.push(e)) =~= deep_elems(s).push(deep_elem(e)));
}

impl HtmlElement {
    /// The reserved name of text leaves.
    pub open spec fn spec_is_text(self) -> bool {
        self.name@ == "textNode"@
    }

    pub fn is_text(&self) -> (r: bool)
        ensures
            r == self.spec_is_text(),
    {
        str_eq(self.name.as_str(), "textNode")
    }
}

/// The path from the tree root to the present position: for each non-text
/// ancestor, its name and a snapshot of its attributes.
#[derive(Debug, PartialEq, Eq)]
pub struct NodeTrace(pub Vec<(String, Vec<(String, String)>)>);

/// The model of a trace.
pub type TraceModel = Seq<(Seq<char>, Seq<(Seq<char>, Seq<char>)>)>;

/// The names along a trace, in order.
pub open spec fn trace_names(t: TraceModel) -> Seq<Seq<char>> {
    t.map_values(|p: (Seq<char>, Seq<(Seq<char>, Seq<char>)>)| p.0)
}

impl NodeTrace {
    pub open spec fn deep(self) -> TraceModel {
        self.0.deep_view()
    }

    /// The ancestor names along this trace, root first.
    pub fn names(&self) -> (r: Vec<String>)
        ensures
            r.deep_view() == trace_names(self.deep()),
    {
        let mut r: Vec<String> = Vec::new();
        let n = self.0.len();
        let mut i: usize = 0;
        while i < n
            invariant
                n == self.0@.len(),
                i <= n,
                r@.len() == i,
                forall|j: int| 0 <= j < i ==> r@[j]@ == self.0@[j].0@,
            decreases n - i,
        {
            r.push(self.0[i].0.clone());
            i = i + 1;
        }
        proof {
            assert(r.deep_view() =~= trace_names(self.deep()));
        }
        r
    }
}

/// The value of the first attribute with the given key, if any: on lookup,
/// the first match wins.
pub open spec fn attr_lookup(attrs: Seq<(Seq<char>, Seq<char>)>, key: Seq<char>) -> Option<
    Seq<char>,
>
    decreases attrs,
{
    if attrs.len() == 0 {
        None
    } else if attrs[0].0 == key {
        Some(attrs[0].1)
    } else {
        attr_lookup(attrs.drop_first(), key)
    }
}

/// First-match attribute lookup.
pub fn find_attr(attrs: &Vec<(String, String)>, key: &str) -> (r: Option<String>)
    ensures
        match r {
            Some(v) => attr_lookup(attrs.deep_view(), key@) == Some(v@),
            None => attr_lookup(attrs.deep_view(), key@) is None,
        },
{
    let n = attrs.len();
    let mut i: usize = 0;
    proof {
        assert(attrs.deep_view().skip(0) =~= attrs.deep_view());
    }
    while i < n
        invariant
            n == attrs@.len(),
            i <= n,
            attr_lookup(attrs.deep_view(), key@) == attr_lookup(
                attrs.deep_view().skip(i as int),
                key@,
            ),
        decreases n - i,
    {
        proof {
            assert(attrs.deep_view().skip(i as int)[0] == attrs.deep_view()[i as int]);
            assert(attrs.deep_view()[i as int].0 == attrs@[i as int].0@);
        }
        if str_eq(attrs[i].0.as_str(), key) {
            return Some(attrs[i].1.clone());
        }
        proof {
            assert(attrs.deep_view().skip(i as int).drop_first() =~= attrs.deep_view().skip(
                i as int + 1,
            ));
        }
        i = i + 1;
    }
    proof {
        assert(attrs.deep_view().skip(n as int) =~= Seq::<(Seq<char>, Seq<char>)>::empty());
    }
    None
}

/// A copy of an attribute list, character for character.
pub fn clone_attrs(v: &Vec<(String, String)>) -> (r: Vec<(String, String)>)
    ensures
        r.deep_view() == v.deep_view(),
        r@.len() == v@.len(),
{
    let n = v.len();
    let mut r: Vec<(String, String)> = Vec::new();
    let mut i: usize = 0;
    while i < n
        invariant
            n == v@.len(),
            i <= n,
            r@.len() == i,
            forall|j: int| 0 <= j < i ==> r.deep_view()[j] == v.deep_view()[j],
        decreases n - i,
    {
        r.push((v[i].0.clone(), v[i].1.clone()));
        i = i + 1;
    }
    proof {
        assert(r.deep_view() =~= v.deep_view());
    }
    r
}

/// A copy of an optional word, character for character.
pub fn clone_opt_string(v: &Option<String>) -> (r: Option<String>)
    ensures
        match r {
            Some(s) => v matches Some(w) && s@ == w@,
            None => v is None,
        },
{
    match v {
        Some(s) => Some(s.clone()),
        None => None,
    }
}

/// A copy of an element and its whole subtree.
pub fn clone_element(e: &HtmlElement) -> (r: HtmlElement)
    ensures
        deep_elem(r) == deep_elem(*e),
    decreases *e,
{
    let n = e.children.len();
    let mut children: Vec<HtmlElement> = Vec::new();
    let mut i: usize = 0;
    while i < n
        invariant
            n == e.children@.len(),
            i <= n,
            children@.len() == i,
            forall|j: int| 0 <= j < i ==> deep_elem(children@[j]) == deep_elem(e.children@[j]),
        decreases n - i,
    {
        let c = clone_element(&e.children[i]);
        children.push(c);
        i = i + 1;
    }
    proof {
        lemma_deep_elems_len(children@);
        lemma_deep_elems_len(e.children@);
        assert forall|j: int| 0 <= j < n implies deep_elems(children@)[j] == deep_elems(
            e.children@,
        )[j] by {
            lemma_deep_elems_index(children@, j);
            lemma_deep_elems_index(e.children@, j);
        }
        assert(deep_elems(children@) =~= deep_elems(e.children@));
    }
    HtmlElement {
        name: e.name.clone(),
        attributes: clone_attrs(&e.attributes),
        children,
        text_node: clone_opt_string(&e.text_node),
    }
}

/// A copy of a trace, character for character.
pub fn clone_trace(t: &NodeTrace) -> (r: NodeTrace)
    ensures
        r.deep() == t.deep(),
{
    let n = t.0.len();
    let mut r: Vec<(String, Vec<(String, String)>)> = Vec::new();
    let mut i: usize = 0;
    while i < n
        invariant
            n == t.0@.len(),
            i <= n,
            r@.len() == i,
            forall|j: int| 0 <= j < i ==> #[trigger] r@[j].deep_view() == t.0@[j].deep_view(),
        decreases n - i,
    {
        let name_c = t.0[i].0.clone();
        let attrs_c = clone_attrs(&t.0[i].1);
        proof {
            assert((name_c, attrs_c).deep_view() == t.0@[i as int].deep_view());
        }
        r.push((name_c, attrs_c));
        i = i + 1;
    }
    proof {
        assert forall|j: int| 0 <= j < n implies r.deep_view()[j] == t.0.deep_view()[j] by {
            assert(r@[j].deep_view() == t.0@[j].deep_view());
        }
        assert(r.deep_view() =~= t.0.deep_view());
    }
    NodeTrace(r)
}

/// Text leaves carry words, not subtrees: no element named `textNode` has
/// children, anywhere in the tree.  Every tree the parser builds satisfies
/// this.
pub open spec fn no_text_children(e: ElemModel) -> bool
    decreases e,
{
    &&& (e.name == "textNode"@ ==> e.children.len() == 0)
    &&& no_text_children_all(e.children)
}

pub open spec fn no_text_children_all(s: Seq<ElemModel>) -> bool
    decreases s,
{
    forall|i: int| 0 <= i < s.len() ==> no_text_children(#[trigger] s[i])
}

} // verus!
