//! The depth-first traversal of an element tree.
//!
//! One walk visits every node exactly once in document order, entering a
//! node before its children and leaving it after them.  While descending it
//! maintains the trace: the (name, attributes) pairs of the non-text
//! elements on the path from the root down to and including the present
//! node; text leaves are visited like any element but never pushed onto the
//! trace, since they cannot be ancestors.  The walk yields its visits as an
//! ordered event list, which a caller folds over its own state; the engine
//! itself performs no input or output and owns no state besides the trace.
use vstd::prelude::*;

use crate::dom::{
    clone_attrs, clone_element, clone_opt_string, clone_trace, deep_elem, deep_elems, ElemModel,
    HtmlElement, NodeTrace, TraceModel,
};

verus! {

/// One visit: entering a node (with everything a hook may read) or leaving
/// it.
#[derive(Debug, PartialEq, Eq)]
pub enum VisitEvent {
    Enter {
        trace: NodeTrace,
        name: String,
        index: usize,
        attributes: Vec<(String, String)>,
        children: Vec<HtmlElement>,
        text_node: Option<String>,
    },
    Leave { trace: NodeTrace, name: String },
}

/// The model of a visit.
pub enum EventModel {
    Enter {
        trace: TraceModel,
        name: Seq<char>,
        index: int,
        attributes: Seq<(Seq<char>, Seq<char>)>,
        children: Seq<ElemModel>,
        text_node: Option<Seq<char>>,
    },
    Leave { trace: TraceModel, name: Seq<char> },
}

pub open spec fn deep_event(e: VisitEvent) -> EventModel {
    match e {
        VisitEvent::Enter { trace, name, index, attributes, children, text_node } =>
            EventModel::Enter {
            trace: trace.deep(),
            name: name@,
            index: index as int,
            attributes: attributes.deep_view(),
            children: deep_elems(children@),
            text_node: match text_node {
                Some(t) => Some(t@),
                None => None,
            },
        },
        VisitEvent::Leave { trace, name } => EventModel::Leave { trace: trace.deep(), name: name@ },
    }
}

pub open spec fn deep_events(s: Seq<VisitEvent>) -> Seq<EventModel> {
    s.map_values(|e: VisitEvent| deep_event(e))
}

/// The trace entry a node pushes: its own (name, attributes) pair for a
/// non-text element, nothing for a text leaf.
pub open spec fn trace_after_enter(e: ElemModel, t: TraceModel) -> TraceModel {
    if e.name != "textNode"@ {
        t.push((e.name, e.attributes))
    } else {
        t
    }
}

/// The events of one subtree, visited at child position `index` under the
/// trace `t`: enter the root, its children in order, leave the root.
pub open spec fn spec_events(e: ElemModel, t: TraceModel, index: int) -> Seq<EventModel>
    decreases e,
{
    let t2 = trace_after_enter(e, t);
    seq![
        EventModel::Enter {
            trace: t2,
            name: e.name,
            index,
            attributes: e.attributes,
            children: e.children,
            text_node: e.text_node,
        },
    ] + spec_events_children(e.children, t2, 0) + seq![
        EventModel::Leave { trace: t2, name: e.name },
    ]
}

/// The events of a row of siblings, the first at child position `index`.
pub open spec fn spec_events_children(s: Seq<ElemModel>, t: TraceModel, index: int) -> Seq<
    EventModel,
>
    decreases s,
{
    if s.len() == 0 {
        Seq::empty()
    } else {
        spec_events(s[0], t, index) + spec_events_children(s.drop_first(), t, index + 1)
    }
}

/// Appending one sibling appends its events.
pub proof fn lemma_events_children_push(s: Seq<ElemModel>, x: ElemModel, t: TraceModel, index: int)
    ensures
        spec_events_children(s.push(x), t, index) == spec_events_children(s, t, index)
            + spec_events(x, t, index + s.len()),
    decreases s,
{
    if s.len() == 0 {
        let sp = s.push(x);
        assert(sp[0] == x);
        assert(sp.drop_first() =~= Seq::<ElemModel>::empty());
        assert(spec_events_children(sp.drop_first(), t, index + 1) =~= Seq::<EventModel>::empty());
        assert(spec_events_children(sp, t, index) =~= spec_events(x, t, index));
        assert(spec_events_children(s, t, index) =~= Seq::<EventModel>::empty());
        assert(spec_events_children(s, t, index) + spec_events(x, t, index + s.len())
            =~= spec_events(x, t, index));
    } else {
        assert(s.push(x)[0] == s[0]);
        assert(s.push(x).drop_first() =~= s.drop_first().push(x));
        lemma_events_children_push(s.drop_first(), x, t, index + 1);
        assert(spec_events_children(s.push(x), t, index) =~= spec_events_children(s, t, index)
            + spec_events(x, t, index + s.len()));
    }
}

impl HtmlElement {
    /// One depth-first visit of this subtree under an explicit trace,
    /// standing at child position `index`; appends the visit events to
    /// `out` and restores the trace to its value before the call.
    pub fn walk_trace(&self, trace: &mut NodeTrace, index: usize, out: &mut Vec<VisitEvent>)
        ensures
            final(trace).deep() == old(trace).deep(),
            deep_events(final(out)@) == deep_events(old(out)@) + spec_events(
                deep_elem(*self),
                old(trace).deep(),
                index as int,
            ),
        decreases *self,
    {
        let ghost t0 = trace.deep();
        let pushed = !self.is_text();
        if pushed {
            let entry = (self.name.clone(), clone_attrs(&self.attributes));
            proof {
                assert(entry.deep_view() == (self.name@, self.attributes.deep_view()));
            }
            trace.0.push(entry);
            proof {
                assert(trace.deep() =~= t0.push((self.name@, self.attributes.deep_view())));
            }
        }
        let ghost t2 = trace.deep();
        proof {
            assert(t2 == trace_after_enter(deep_elem(*self), t0));
        }
        let enter = VisitEvent::Enter {
            trace: clone_trace(trace),
            name: self.name.clone(),
            index,
            attributes: clone_attrs(&self.attributes),
            children: clone_elems(&self.children),
            text_node: clone_opt_string(&self.text_node),
        };
        proof {
            assert(deep_event(enter) == EventModel::Enter {
                trace: t2,
                name: self.name@,
                index: index as int,
                attributes: self.attributes.deep_view(),
                children: deep_elems(self.children@),
                text_node: deep_elem(*self).text_node,
            });
            assert(deep_events(out@.push(enter)) =~= deep_events(out@).push(deep_event(enter)));
        }
        out.push(enter);
        let ghost out1 = deep_events(out@);
        let n = self.children.len();
        let mut i: usize = 0;
        while i < n
            invariant
                n == self.children@.len(),
                i <= n,
                trace.deep() == t2,
                deep_events(out@) == out1 + spec_events_children(
                    deep_elems(self.children@).take(i as int),
                    t2,
                    0,
                ),
            decreases n - i,
        {
            proof {
                crate::dom::lemma_deep_elems_len(self.children@);
                crate::dom::lemma_deep_elems_index(self.children@, i as int);
            }
            self.children[i].walk_trace(trace, i, out);
            proof {
                let kids = deep_elems(self.children@);
                assert(kids.take(i as int).push(kids[i as int]) =~= kids.take(i as int + 1));
                lemma_events_children_push(kids.take(i as int), kids[i as int], t2, 0);
            }
            i = i + 1;
        }
        proof {
            crate::dom::lemma_deep_elems_len(self.children@);
            assert(deep_elems(self.children@).take(n as int) =~= deep_elems(self.children@));
        }
        let leave = VisitEvent::Leave { trace: clone_trace(trace), name: self.name.clone() };
        proof {
            assert(deep_event(leave) == EventModel::Leave { trace: t2, name: self.name@ });
            assert(deep_events(out@.push(leave)) =~= deep_events(out@).push(deep_event(leave)));
        }
        out.push(leave);
        if pushed {
            let ghost before = trace.0@;
            proof {
                assert(t2.len() == before.len());
                assert(before.len() == t0.len() + 1);
            }
            let _ = trace.0.pop();
            proof {
                assert(trace.0@ =~= before.drop_last());
                assert forall|j: int| 0 <= j < t0.len() implies trace.deep()[j] == t0[j] by {
                    assert(trace.deep()[j] == trace.0@[j].deep_view());
                    assert(before.drop_last()[j] == before[j]);
                    assert(t2[j] == before[j].deep_view());
                }
                assert(trace.deep().len() == t0.len());
                assert(trace.deep() =~= t0);
            }
        }
        proof {
            assert(deep_events(out@) =~= deep_events(old(out)@) + spec_events(
                deep_elem(*self),
                t0,
                index as int,
            ));
        }
    }

    /// One depth-first visit of the whole tree, from an empty trace; the
    /// events of every node, in document order.
    pub fn walk(&self) -> (r: Vec<VisitEvent>)
        ensures
            deep_events(r@) == spec_events(deep_elem(*self), Seq::empty(), 0),
    {
        let mut trace = NodeTrace(Vec::new());
        let mut out: Vec<VisitEvent> = Vec::new();
        proof {
            assert(trace.deep() =~= Seq::<(Seq<char>, Seq<(Seq<char>, Seq<char>)>)>::empty());
            assert(deep_events(out@) =~= Seq::<EventModel>::empty());
        }
        self.walk_trace(&mut trace, 0, &mut out);
        proof {
            assert(Seq::<EventModel>::empty() + spec_events(deep_elem(*self), trace.deep(), 0)
                =~= spec_events(deep_elem(*self), trace.deep(), 0));
        }
        out
    }
}

/// A copy of a row of elements and their subtrees.
pub fn clone_elems(v: &Vec<HtmlElement>) -> (r: Vec<HtmlElement>)
    ensures
        deep_elems(r@) == deep_elems(v@),
        r@.len() == v@.len(),
{
    let n = v.len();
    let mut r: Vec<HtmlElement> = Vec::new();
    let mut i: usize = 0;
    while i < n
        invariant
            n == v@.len(),
            i <= n,
            r@.len() == i,
            forall|j: int| 0 <= j < i ==> deep_elem(#[trigger] r@[j]) == deep_elem(v@[j]),
        decreases n - i,
    {
        let c = clone_element(&v[i]);
        r.push(c);
        i = i + 1;
    }
    proof {
        crate::dom::lemma_deep_elems_len(r@);
        crate::dom::lemma_deep_elems_len(v@);
        assert forall|j: int| 0 <= j < n implies deep_elems(r@)[j] == deep_elems(v@)[j] by {
            crate::dom::lemma_deep_elems_index(r@, j);
            crate::dom::lemma_deep_elems_index(v@, j);
        }
        assert(deep_elems(r@) =~= deep_elems(v@));
    }
    r
}

/// The node names of a subtree in pre-order: each node before its children.
pub open spec fn preorder_names(e: ElemModel) -> Seq<Seq<char>>
    decreases e,
{
    seq![e.name] + preorder_names_children(e.children)
}

pub open spec fn preorder_names_children(s: Seq<ElemModel>) -> Seq<Seq<char>>
    decreases s,
{
    if s.len() == 0 {
        Seq::empty()
    } else {
        preorder_names(s[0]) + preorder_names_children(s.drop_first())
    }
}

/// The node names of a subtree in post-order: each node after its children.
pub open spec fn postorder_names(e: ElemModel) -> Seq<Seq<char>>
    decreases e,
{
    postorder_names_children(e.children) + seq![e.name]
}

pub open spec fn postorder_names_children(s: Seq<ElemModel>) -> Seq<Seq<char>>
    decreases s,
{
    if s.len() == 0 {
        Seq::empty()
    } else {
        postorder_names(s[0]) + postorder_names_children(s.drop_first())
    }
}

/// The number of nodes of a subtree.
pub open spec fn node_count(e: ElemModel) -> nat
    decreases e,
{
    1 + node_count_children(e.children)
}

pub open spec fn node_count_children(s: Seq<ElemModel>) -> nat
    decreases s,
{
    if s.len() == 0 {
        0
    } else {
        node_count(s[0]) + node_count_children(s.drop_first())
    }
}

/// The name an event speaks of.
pub open spec fn event_name(ev: EventModel) -> Seq<char> {
    match ev {
        EventModel::Enter { name, .. } => name,
        EventModel::Leave { name, .. } => name,
    }
}

/// The names of the enter events of a stream, in order.
pub open spec fn enter_names(evs: Seq<EventModel>) -> Seq<Seq<char>>
    decreases evs,
{
    if evs.len() == 0 {
        Seq::empty()
    } else if evs[0] is Enter {
        seq![event_name(evs[0])] + enter_names(evs.drop_first())
    } else {
        enter_names(evs.drop_first())
    }
}

/// The names of the leave events of a stream, in order.
pub open spec fn leave_names(evs: Seq<EventModel>) -> Seq<Seq<char>>
    decreases evs,
{
    if evs.len() == 0 {
        Seq::empty()
    } else if evs[0] is Leave {
        seq![event_name(evs[0])] + leave_names(evs.drop_first())
    } else {
        leave_names(evs.drop_first())
    }
}

proof fn lemma_enter_names_add(a: Seq<EventModel>, b: Seq<EventModel>)
    ensures
        enter_names(a + b) == enter_names(a) + enter_names(b),
    decreases a,
{
    if a.len() == 0 {
        assert(a + b =~= b);
        assert(enter_names(a) + enter_names(b) =~= enter_names(b));
    } else {
        assert((a + b)[0] == a[0]);
        assert((a + b).drop_first() =~= a.drop_first() + b);
        lemma_enter_names_add(a.drop_first(), b);
        if a[0] is Enter {
            assert(seq![event_name(a[0])] + (enter_names(a.drop_first()) + enter_names(b)) =~= (
            seq![event_name(a[0])] + enter_names(a.drop_first())) + enter_names(b));
        }
    }
}

proof fn lemma_leave_names_add(a: Seq<EventModel>, b: Seq<EventModel>)
    ensures
        leave_names(a + b) == leave_names(a) + leave_names(b),
    decreases a,
{
    if a.len() == 0 {
        assert(a + b =~= b);
        assert(leave_names(a) + leave_names(b) =~= leave_names(b));
    } else {
        assert((a + b)[0] == a[0]);
        assert((a + b).drop_first() =~= a.drop_first() + b);
        lemma_leave_names_add(a.drop_first(), b);
        if a[0] is Leave {
            assert(seq![event_name(a[0])] + (leave_names(a.drop_first()) + leave_names(b)) =~= (
            seq![event_name(a[0])] + leave_names(a.drop_first())) + leave_names(b));
        }
    }
}

proof fn lemma_names_single(ev: EventModel)
    ensures
        enter_names(seq![ev]) == if ev is Enter {
            seq![event_name(ev)]
        } else {
            Seq::<Seq<char>>::empty()
        },
        leave_names(seq![ev]) == if ev is Leave {
            seq![event_name(ev)]
        } else {
            Seq::<Seq<char>>::empty()
        },
{
    let single = seq![ev];
    assert(single.len() == 1);
    assert(single[0] == ev);
    let d = single.drop_first();
    assert(d =~= Seq::<EventModel>::empty());
    assert(d.len() == 0);
    assert(enter_names(d) == Seq::<Seq<char>>::empty());
    assert(leave_names(d) == Seq::<Seq<char>>::empty());
    if ev is Enter {
        assert(enter_names(seq![ev]) =~= seq![event_name(ev)]);
        assert(leave_names(seq![ev]) =~= Seq::<Seq<char>>::empty());
    } else {
        assert(enter_names(seq![ev]) =~= Seq::<Seq<char>>::empty());
        assert(leave_names(seq![ev]) =~= seq![event_name(ev)]);
    }
}

/// The traversal visits every node exactly once for enter and exactly once
/// for leave, both in document order: the enter events name the nodes in
/// pre-order, the leave events name them in post-order, and each list is
/// exactly one name per node.
pub proof fn lemma_walk_document_order(e: ElemModel, t: TraceModel, index: int)
    ensures
        enter_names(spec_events(e, t, index)) == preorder_names(e),
        leave_names(spec_events(e, t, index)) == postorder_names(e),
        preorder_names(e).len() == node_count(e),
        postorder_names(e).len() == node_count(e),
    decreases e,
{
    let t2 = trace_after_enter(e, t);
    let enter = EventModel::Enter {
        trace: t2,
        name: e.name,
        index,
        attributes: e.attributes,
        children: e.children,
        text_node: e.text_node,
    };
    let leave = EventModel::Leave { trace: t2, name: e.name };
    let body = spec_events_children(e.children, t2, 0);
    assert(spec_events(e, t, index) == (seq![enter] + body) + seq![leave]);
    lemma_enter_names_add(seq![enter] + body, seq![leave]);
    lemma_enter_names_add(seq![enter], body);
    lemma_leave_names_add(seq![enter] + body, seq![leave]);
    lemma_leave_names_add(seq![enter], body);
    lemma_names_single(enter);
    lemma_names_single(leave);
    lemma_walk_document_order_children(e.children, t2, 0);
    assert(enter_names(spec_events(e, t, index)) =~= preorder_names(e));
    assert(leave_names(spec_events(e, t, index)) =~= postorder_names(e));
}

pub proof fn lemma_walk_document_order_children(s: Seq<ElemModel>, t: TraceModel, index: int)
    ensures
        enter_names(spec_events_children(s, t, index)) == preorder_names_children(s),
        leave_names(spec_events_children(s, t, index)) == postorder_names_children(s),
        preorder_names_children(s).len() == node_count_children(s),
        postorder_names_children(s).len() == node_count_children(s),
    decreases s,
{
    if s.len() == 0 {
        assert(enter_names(Seq::<EventModel>::empty()) =~= Seq::<Seq<char>>::empty());
        assert(leave_names(Seq::<EventModel>::empty()) =~= Seq::<Seq<char>>::empty());
    } else {
        lemma_walk_document_order(s[0], t, index);
        lemma_walk_document_order_children(s.drop_first(), t, index + 1);
        lemma_enter_names_add(
            spec_events(s[0], t, index),
            spec_events_children(s.drop_first(), t, index + 1),
        );
        lemma_leave_names_add(
            spec_events(s[0], t, index),
            spec_events_children(s.drop_first(), t, index + 1),
        );
    }
}

/// The trace as the event stream itself implies it: entering a non-text
/// node pushes its (name, attributes) pair, leaving one pops it; text
/// leaves touch nothing.
pub open spec fn stack_step(t: TraceModel, ev: EventModel) -> TraceModel {
    match ev {
        EventModel::Enter { name, attributes, .. } => if name != "textNode"@ {
            t.push((name, attributes))
        } else {
            t
        },
        EventModel::Leave { name, .. } => if name != "textNode"@ {
            t.drop_last()
        } else {
            t
        },
    }
}

/// The trace after processing a whole event stream from `t`.
pub open spec fn stack_run(t: TraceModel, evs: Seq<EventModel>) -> TraceModel
    decreases evs,
{
    if evs.len() == 0 {
        t
    } else {
        stack_run(stack_step(t, evs[0]), evs.drop_first())
    }
}

/// What each event's trace must equal: for an enter, the implied trace just
/// after it (the node's non-text ancestors and, for a non-text node, the
/// node itself); for a leave, the implied trace just before it.
pub open spec fn event_trace_ok(t0: TraceModel, evs: Seq<EventModel>, j: int) -> bool {
    match evs[j] {
        EventModel::Enter { trace, .. } => trace == stack_run(t0, evs.take(j + 1)),
        EventModel::Leave { trace, .. } => trace == stack_run(t0, evs.take(j)),
    }
}

proof fn lemma_stack_run_add(t: TraceModel, a: Seq<EventModel>, b: Seq<EventModel>)
    ensures
        stack_run(t, a + b) == stack_run(stack_run(t, a), b),
    decreases a,
{
    if a.len() == 0 {
        assert(a + b =~= b);
    } else {
        assert((a + b)[0] == a[0]);
        assert((a + b).drop_first() =~= a.drop_first() + b);
        lemma_stack_run_add(stack_step(t, a[0]), a.drop_first(), b);
    }
}

proof fn lemma_take_concat_left(a: Seq<EventModel>, b: Seq<EventModel>, m: int)
    requires
        0 <= m <= a.len(),
    ensures
        (a + b).take(m) == a.take(m),
{
    assert((a + b).take(m) =~= a.take(m));
}

proof fn lemma_take_concat_right(a: Seq<EventModel>, b: Seq<EventModel>, m: int)
    requires
        0 <= m <= b.len(),
    ensures
        (a + b).take(a.len() + m) == a + b.take(m),
{
    assert((a + b).take(a.len() + m) =~= a + b.take(m));
}

/// Transfers the per-event property across a prefix: the events of `b`
/// inside `a + b` see the implied trace that `a` leaves behind.
proof fn lemma_event_trace_shift(t0: TraceModel, a: Seq<EventModel>, b: Seq<EventModel>, k: int)
    requires
        0 <= k < b.len(),
        event_trace_ok(stack_run(t0, a), b, k),
    ensures
        event_trace_ok(t0, a + b, a.len() + k),
{
    let t1 = stack_run(t0, a);
    assert((a + b)[a.len() + k] == b[k]);
    lemma_take_concat_right(a, b, k);
    lemma_take_concat_right(a, b, k + 1);
    lemma_stack_run_add(t0, a, b.take(k));
    lemma_stack_run_add(t0, a, b.take(k + 1));
}

/// Every enter event of the walk carries, as its trace, exactly the
/// (name, attributes) pairs of the node's non-text ancestors from the root
/// down, extended with the node itself when it is not a text leaf; every
/// leave event carries the same trace as its enter.  Equivalently: each
/// event's trace is the one the event stream itself implies, and a whole
/// subtree leaves the trace as it found it.
pub proof fn lemma_walk_traces(e: ElemModel, t: TraceModel, index: int)
    ensures
        stack_run(t, spec_events(e, t, index)) == t,
        forall|j: int|
            0 <= j < spec_events(e, t, index).len() ==> event_trace_ok(
                t,
                spec_events(e, t, index),
                j,
            ),
    decreases e,
{
    let t2 = trace_after_enter(e, t);
    let enter = EventModel::Enter {
        trace: t2,
        name: e.name,
        index,
        attributes: e.attributes,
        children: e.children,
        text_node: e.text_node,
    };
    let leave = EventModel::Leave { trace: t2, name: e.name };
    let body = spec_events_children(e.children, t2, 0);
    let head = seq![enter];
    let tail = seq![leave];
    let evs = spec_events(e, t, index);
    assert(evs == (head + body) + tail);
    lemma_walk_traces_children(e.children, t2, 0);

    // the implied trace after the enter event is the pushed trace
    assert(head[0] == enter);
    assert(head.drop_first() =~= Seq::<EventModel>::empty());
    assert(head.drop_first().len() == 0);
    assert(stack_run(stack_step(t, enter), head.drop_first()) == stack_step(t, enter));
    assert(stack_step(t, enter) == t2);
    assert(stack_run(t, head) == t2);
    lemma_stack_run_add(t, head, body);
    assert(stack_run(t, head + body) == t2);
    lemma_stack_run_add(t, head + body, tail);
    assert(tail[0] == leave);
    assert(tail.drop_first() =~= Seq::<EventModel>::empty());
    assert(tail.drop_first().len() == 0);
    assert(stack_run(stack_step(t2, leave), tail.drop_first()) == stack_step(t2, leave));
    assert(stack_run(t2, tail) == stack_step(t2, leave));
    if e.name != "textNode"@ {
        assert(t2.drop_last() =~= t);
    }
    assert(stack_run(t, evs) == t);

    assert forall|j: int| 0 <= j < evs.len() implies event_trace_ok(t, evs, j) by {
        if j == 0 {
            assert(evs[0] == enter);
            assert(evs.take(1) =~= head);
            assert(event_trace_ok(t, evs, 0));
        } else if j < 1 + body.len() {
            let k = j - 1;
            assert(event_trace_ok(t2, body, k));
            lemma_event_trace_shift(t, head, body, k);
            assert((head + body)[j] == evs[j]);
            assert((head + body).take(j) =~= evs.take(j));
            assert((head + body).take(j + 1) =~= evs.take(j + 1));
            assert(event_trace_ok(t, evs, j));
        } else {
            assert(evs[j] == leave);
            assert(evs.take(j) =~= head + body);
            assert(event_trace_ok(t, evs, j));
        }
    }
}

pub proof fn lemma_walk_traces_children(s: Seq<ElemModel>, t: TraceModel, index: int)
    ensures
        stack_run(t, spec_events_children(s, t, index)) == t,
        forall|j: int|
            0 <= j < spec_events_children(s, t, index).len() ==> event_trace_ok(
                t,
                spec_events_children(s, t, index),
                j,
            ),
    decreases s,
{
    if s.len() == 0 {
    } else {
        let q = spec_events(s[0], t, index);
        let r = spec_events_children(s.drop_first(), t, index + 1);
        let evs = spec_events_children(s, t, index);
        assert(evs == q + r);
        lemma_walk_traces(s[0], t, index);
        lemma_walk_traces_children(s.drop_first(), t, index + 1);
        lemma_stack_run_add(t, q, r);
        assert(stack_run(t, evs) == t);
        assert forall|j: int| 0 <= j < evs.len() implies event_trace_ok(t, evs, j) by {
            if j < q.len() {
                assert(event_trace_ok(t, q, j));
                assert(evs[j] == q[j]);
                lemma_take_concat_left(q, r, j);
                lemma_take_concat_left(q, r, j + 1);
                assert(event_trace_ok(t, evs, j));
            } else {
                let k = j - q.len();
                assert(event_trace_ok(t, r, k));
                lemma_event_trace_shift(t, q, r, k);
                assert(event_trace_ok(t, evs, j));
            }
        }
    }
}

} // verus!
