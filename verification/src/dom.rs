use vstd::prelude::*;

verus! {

/// One event of a document-order walk over the parsed markup: an element
/// opens (with its lowercased name and its attributes), a text node
/// passes, or an element closes.
pub enum DomEvent {
    Open(String, Vec<(String, String)>),
    Text(String),
    Close,
}

pub ghost enum EventView {
    Open(Seq<char>, Seq<(Seq<char>, Seq<char>)>),
    Text(Seq<char>),
    Close,
}

pub open spec fn attrs_view(attrs: Seq<(String, String)>) -> Seq<(Seq<char>, Seq<char>)> {
    attrs.map_values(|p: (String, String)| (p.0@, p.1@))
}

pub open spec fn event_view(e: DomEvent) -> EventView {
    match e {
        DomEvent::Open(name, attrs) => EventView::Open(name@, attrs_view(attrs@)),
        DomEvent::Text(t) => EventView::Text(t@),
        DomEvent::Close => EventView::Close,
    }
}

pub open spec fn events_view(s: Seq<DomEvent>) -> Seq<EventView> {
    Seq::new(s.len(), |i: int| event_view(s[i]))
}

/// What walking the parsed document yields; a pure function of the markup
/// text alone.
pub uninterp spec fn dom_events_of(s: Seq<char>) -> Seq<EventView>;

#[verifier::external_type_specification]
#[verifier::external_body]
pub struct ExScraperNode(scraper::Node);

/// Relies on scraper::Node: an element node yields an open event carrying
/// its lowercased name and attributes, a text node yields its text, any
/// other kind (comment, doctype, document, ...) yields nothing.
#[verifier::external_body]
fn event_of_open(n: &scraper::Node) -> (r: Option<DomEvent>) {
    match n {
        scraper::Node::Element(e) => {
            let mut attrs: Vec<(String, String)> = Vec::new();
            for (k, v) in e.attrs() {
                attrs.push((k.to_string(), v.to_string()));
            }
            Some(DomEvent::Open(e.name().to_string(), attrs))
        },
        scraper::Node::Text(t) => Some(DomEvent::Text((**t).to_string())),
        _ => None,
    }
}

/// Relies on scraper::Node: only an element's close edge yields a close
/// event; text and other kinds close silently.
#[verifier::external_body]
fn event_of_close(n: &scraper::Node) -> (r: Option<DomEvent>) {
    match n {
        scraper::Node::Element(_) => Some(DomEvent::Close),
        _ => None,
    }
}

/// Relies on scraper::Html::parse_document (the tag-soup tolerant html5ever
/// parser) and ego_tree's traversal: the document's tree rendered as a run
/// of open/text/close events in document order, named `dom_events_of`.
#[verifier::external_body]
pub(crate) fn dom_events(html: &str) -> (r: Vec<DomEvent>)
    ensures
        events_view(r@) == dom_events_of(html@),
{
    let doc = scraper::Html::parse_document(html);
    let mut out: Vec<DomEvent> = Vec::new();
    for edge in doc.tree.root().traverse() {
        let ev = match edge {
            ego_tree::iter::Edge::Open(n) => event_of_open(n.value()),
            ego_tree::iter::Edge::Close(n) => event_of_close(n.value()),
        };
        if let Some(e) = ev {
            out.push(e);
        }
    }
    out
}

/// A node of the reconstructed document tree: an element with a name,
/// attributes and children, or a run of text.
pub enum DomNode {
    Element { name: String, attrs: Vec<(String, String)>, children: Vec<DomNode> },
    Text(String),
}

pub ghost enum DomView {
    Element { name: Seq<char>, attrs: Seq<(Seq<char>, Seq<char>)>, children: Seq<DomView> },
    Text(Seq<char>),
}

pub open spec fn dom_view(d: DomNode) -> DomView
    decreases d,
{
    match d {
        DomNode::Element { name, attrs, children } => DomView::Element {
            name: name@,
            attrs: attrs_view(attrs@),
            children: doms_view(children@),
        },
        DomNode::Text(t) => DomView::Text(t@),
    }
}

pub open spec fn doms_view(s: Seq<DomNode>) -> Seq<DomView>
    decreases s,
{
    if s.len() == 0 {
        Seq::empty()
    } else {
        seq![dom_view(s[0])] + doms_view(s.drop_first())
    }
}

pub proof fn lemma_doms_view_len(s: Seq<DomNode>)
    ensures
        doms_view(s).len() == s.len(),
    decreases s,
{
    if s.len() != 0 {
        lemma_doms_view_len(s.drop_first());
    }
}

pub proof fn lemma_doms_view_index(s: Seq<DomNode>, i: int)
    requires
        0 <= i < s.len(),
    ensures
        doms_view(s).len() == s.len(),
        doms_view(s)[i] == dom_view(s[i]),
    decreases s,
{
    lemma_doms_view_len(s);
    if i > 0 {
        lemma_doms_view_index(s.drop_first(), i - 1);
        assert(s.drop_first()[i - 1] == s[i]);
    }
}

pub proof fn lemma_doms_view_push(s: Seq<DomNode>, n: DomNode)
    ensures
        doms_view(s.push(n)) == doms_view(s).push(dom_view(n)),
    decreases s,
{
    if s.len() == 0 {
        assert(s.push(n).drop_first() =~= Seq::<DomNode>::empty());
        assert(s.push(n)[0] == n);
        assert(doms_view(s.push(n)) == seq![dom_view(n)] + doms_view(s.push(n).drop_first()));
        assert(doms_view(s.push(n).drop_first()) == Seq::<DomView>::empty());
        assert(doms_view(s) == Seq::<DomView>::empty());
        assert(doms_view(s.push(n)) =~= doms_view(s).push(dom_view(n)));
    } else {
        lemma_doms_view_push(s.drop_first(), n);
        assert(s.push(n).drop_first() =~= s.drop_first().push(n));
        assert(doms_view(s.push(n).drop_first()) == doms_view(s.drop_first()).push(dom_view(n)));
        assert(s.push(n)[0] == s[0]);
        assert(doms_view(s.push(n)) == seq![dom_view(s[0])] + doms_view(s.drop_first()).push(
            dom_view(n),
        ));
        assert(doms_view(s) == seq![dom_view(s[0])] + doms_view(s.drop_first()));
        assert(doms_view(s.push(n)) =~= doms_view(s).push(dom_view(n)));
    }
}

/// The name of an element node; text nodes have none.
pub open spec fn el_name(d: DomView) -> Seq<char> {
    match d {
        DomView::Element { name, .. } => name,
        DomView::Text(_) => Seq::empty(),
    }
}

pub open spec fn el_attrs(d: DomView) -> Seq<(Seq<char>, Seq<char>)> {
    match d {
        DomView::Element { attrs, .. } => attrs,
        DomView::Text(_) => Seq::empty(),
    }
}

pub open spec fn el_children(d: DomView) -> Seq<DomView> {
    match d {
        DomView::Element { children, .. } => children,
        DomView::Text(_) => Seq::empty(),
    }
}

pub open spec fn is_el(d: DomView) -> bool {
    d is Element
}

/// Number of nodes in one document subtree.
pub open spec fn size_dom(d: DomView) -> nat
    decreases d, 0int,
{
    match d {
        DomView::Element { children, .. } => 1 + size_doms(children),
        DomView::Text(_) => 1,
    }
}

pub proof fn lemma_size_dom_open(d: DomView)
    ensures
        size_dom(d) == 1 + size_doms(el_children(d)),
{
    match d {
        DomView::Element { .. } => {
        },
        DomView::Text(_) => {
            assert(el_children(d) =~= Seq::<DomView>::empty());
            assert(size_doms(el_children(d)) == 0);
        },
    }
}

/// Number of nodes in a document forest.
pub open spec fn size_doms(s: Seq<DomView>) -> nat
    decreases s, 1int,
{
    if s.len() == 0 {
        0
    } else {
        size_dom(s[0]) + size_doms(s.drop_first())
    }
}

pub proof fn lemma_size_doms_index(s: Seq<DomView>, i: int)
    requires
        0 <= i < s.len(),
    ensures
        size_dom(s[i]) <= size_doms(s),
    decreases s,
{
    if i > 0 {
        lemma_size_doms_index(s.drop_first(), i - 1);
        assert(s.drop_first()[i - 1] == s[i]);
    }
}

/// An element still waiting for its close event, with the siblings
/// collected before it opened.
struct Frame {
    name: String,
    attrs: Vec<(String, String)>,
    siblings: Vec<DomNode>,
}

pub ghost struct FrameView {
    pub name: Seq<char>,
    pub attrs: Seq<(Seq<char>, Seq<char>)>,
    pub siblings: Seq<DomView>,
}

spec fn frame_view(f: Frame) -> FrameView {
    FrameView { name: f.name@, attrs: attrs_view(f.attrs@), siblings: doms_view(f.siblings@) }
}

spec fn frames_view(s: Seq<Frame>) -> Seq<FrameView> {
    Seq::new(s.len(), |i: int| frame_view(s[i]))
}

/// One event applied to the builder state: a stack of open elements and
/// the children collected at the current level.
pub open spec fn build_step(st: Seq<FrameView>, cur: Seq<DomView>, e: EventView) -> (Seq<
    FrameView,
>, Seq<DomView>) {
    match e {
        EventView::Open(name, attrs) => (
            st.push(FrameView { name, attrs, siblings: cur }),
            Seq::empty(),
        ),
        EventView::Text(t) => (st, cur.push(DomView::Text(t))),
        EventView::Close => {
            if st.len() == 0 {
                (st, cur)
            } else {
                let top = st.last();
                (
                    st.drop_last(),
                    top.siblings.push(
                        DomView::Element { name: top.name, attrs: top.attrs, children: cur },
                    ),
                )
            }
        },
    }
}

pub open spec fn build_state(ev: Seq<EventView>, i: int) -> (Seq<FrameView>, Seq<DomView>)
    decreases i,
    when 0 <= i <= ev.len()
{
    if i == 0 {
        (Seq::empty(), Seq::empty())
    } else {
        let prev = build_state(ev, i - 1);
        build_step(prev.0, prev.1, ev[i - 1])
    }
}

/// Close every element still open when the events end.
pub open spec fn finish_frames(st: Seq<FrameView>, cur: Seq<DomView>) -> Seq<DomView>
    decreases st.len(),
{
    if st.len() == 0 {
        cur
    } else {
        let top = st.last();
        finish_frames(
            st.drop_last(),
            top.siblings.push(DomView::Element { name: top.name, attrs: top.attrs, children: cur }),
        )
    }
}

/// The document forest the events describe. Stray closes are ignored and
/// elements left open are closed at the end: loose markup still yields a
/// tree.
pub open spec fn spec_build_dom(ev: Seq<EventView>) -> Seq<DomView> {
    let st = build_state(ev, ev.len() as int);
    finish_frames(st.0, st.1)
}

fn clone_attrs(v: &Vec<(String, String)>) -> (r: Vec<(String, String)>)
    ensures
        attrs_view(r@) == attrs_view(v@),
{
    let mut out: Vec<(String, String)> = Vec::new();
    let mut i: usize = 0;
    while i < v.len()
        invariant
            i <= v@.len(),
            attrs_view(out@) =~= attrs_view(v@).take(i as int),
        decreases v@.len() - i,
    {
        let k = v[i].0.clone();
        let w = v[i].1.clone();
        proof {
            assert(k == v@[i as int].0);
            assert(w == v@[i as int].1);
            assert(attrs_view(v@)[i as int] == (v@[i as int].0@, v@[i as int].1@));
            assert(attrs_view(out@).len() == out@.len());
            assert(attrs_view(v@).len() == v@.len());
            assert(attrs_view(v@).take(i as int).len() == i as int);
            assert(out@.len() == i);
        }
        out.push((k, w));
        proof {
            assert(out@.len() == i + 1);
            assert(out@[i as int] == (k, w));
            assert(attrs_view(out@)[i as int] == (k@, w@));
            assert(attrs_view(out@) =~= attrs_view(v@).take(i as int + 1));
        }
        i += 1;
    }
    proof {
        assert(attrs_view(v@).take(v@.len() as int) =~= attrs_view(v@));
    }
    out
}

/// Rebuild the document forest from the event run.
pub fn build_dom(events: &Vec<DomEvent>) -> (r: Vec<DomNode>)
    ensures
        doms_view(r@) == spec_build_dom(events_view(events@)),
{
    let ghost ev = events_view(events@);
    let mut stack: Vec<Frame> = Vec::new();
    let mut cur: Vec<DomNode> = Vec::new();
    let mut i: usize = 0;
    proof {
        assert(frames_view(stack@) =~= Seq::<FrameView>::empty());
        assert(doms_view(cur@) =~= Seq::<DomView>::empty());
    }
    while i < events.len()
        invariant
            i <= events@.len(),
            ev == events_view(events@),
            ev.len() == events@.len(),
            frames_view(stack@) == build_state(ev, i as int).0,
            doms_view(cur@) == build_state(ev, i as int).1,
        decreases events@.len() - i,
    {
        proof {
            assert(ev[i as int] == event_view(events@[i as int]));
        }
        match &events[i] {
            DomEvent::Open(name, attrs) => {
                let f = Frame { name: name.clone(), attrs: clone_attrs(attrs), siblings: cur };
                proof {
                    assert(frames_view(stack@.push(f)) =~= frames_view(stack@).push(
                        frame_view(f),
                    ));
                }
                stack.push(f);
                cur = Vec::new();
                proof {
                    assert(doms_view(cur@) =~= Seq::<DomView>::empty());
                    assert(frames_view(stack@) =~= build_state(ev, i as int + 1).0);
                }
            },
            DomEvent::Text(t) => {
                let d = DomNode::Text(t.clone());
                proof {
                    lemma_doms_view_push(cur@, d);
                }
                cur.push(d);
                proof {
                    assert(doms_view(cur@) =~= build_state(ev, i as int + 1).1);
                }
            },
            DomEvent::Close => {
                let ghost pst = stack@;
                match stack.pop() {
                    Some(f) => {
                        proof {
                            assert(frames_view(stack@) =~= frames_view(pst).drop_last());
                            assert(frame_view(f) == frames_view(pst)[pst.len() - 1]);
                        }
                        let el = DomNode::Element {
                            name: f.name,
                            attrs: f.attrs,
                            children: cur,
                        };
                        cur = f.siblings;
                        proof {
                            lemma_doms_view_push(cur@, el);
                            assert(frames_view(stack@) =~= build_state(ev, i as int + 1).0);
                        }
                        cur.push(el);
                        proof {
                            assert(doms_view(cur@) =~= build_state(ev, i as int + 1).1);
                        }
                    },
                    None => {
                        proof {
                            assert(frames_view(stack@).len() == 0);
                            assert(frames_view(stack@) =~= build_state(ev, i as int + 1).0);
                        }
                    },
                }
            },
        }
        i += 1;
    }
    proof {
        assert(finish_frames(frames_view(stack@), doms_view(cur@)) == spec_build_dom(ev));
    }
    while stack.len() > 0
        invariant
            finish_frames(frames_view(stack@), doms_view(cur@)) == spec_build_dom(ev),
        decreases stack@.len(),
    {
        let ghost pst = stack@;
        let f = stack.pop().unwrap();
        proof {
            assert(frames_view(stack@) =~= frames_view(pst).drop_last());
            assert(frame_view(f) == frames_view(pst)[pst.len() - 1]);
        }
        let el = DomNode::Element { name: f.name, attrs: f.attrs, children: cur };
        cur = f.siblings;
        proof {
            lemma_doms_view_push(cur@, el);
        }
        cur.push(el);
        proof {
            assert(finish_frames(frames_view(stack@), doms_view(cur@)) == spec_build_dom(ev));
        }
    }
    cur
}

} // verus!
