use vstd::prelude::*;

use crate::string_map::{insert_pair, pairs_of, StringMap};

verus! {

/// An element of an HTML document: its local name, its attributes by local
/// name, and its children.
#[derive(Debug)]
pub struct ElementNode {
    pub name: String,
    pub attrs: StringMap,
    pub children: Vec<DomNode>,
}

/// A node of an HTML document. `Other` stands for the document itself and
/// for the nodes that are neither elements nor text (comments, doctypes,
/// processing instructions); it keeps the children it has.
#[derive(Debug)]
pub enum DomNode {
    Element(ElementNode),
    Text(String),
    Other(Vec<DomNode>),
}

/// A node as plain values.
pub enum DomView {
    Element { name: Seq<char>, attrs: Seq<(Seq<char>, Seq<char>)>, children: Seq<DomView> },
    Text(Seq<char>),
    Other(Seq<DomView>),
}

pub open spec fn dom_view(n: DomNode) -> DomView
    decreases n,
{
    match n {
        DomNode::Element(e) => DomView::Element {
            name: e.name@,
            attrs: e.attrs.pairs(),
            children: doms_view(e.children@),
        },
        DomNode::Text(t) => DomView::Text(t@),
        DomNode::Other(c) => DomView::Other(doms_view(c@)),
    }
}

pub open spec fn doms_view(s: Seq<DomNode>) -> Seq<DomView>
    decreases s,
{
    Seq::new(s.len(), |i: int| if 0 <= i < s.len() { dom_view(s[i]) } else { arbitrary() })
}

impl View for DomNode {
    type V = DomView;

    open spec fn view(&self) -> DomView {
        dom_view(*self)
    }
}

/// One step of a walk through a document in tree order: the start of an
/// element, of a text node or of another node, or the end of the node that
/// was started last and is not yet ended.
pub enum DomEvent {
    Open(String, Vec<(String, String)>),
    Text(String),
    Other,
    Close,
}

/// An event as plain values.
pub enum EventView {
    Open(Seq<char>, Seq<(Seq<char>, Seq<char>)>),
    Text(Seq<char>),
    Other,
    Close,
}

pub open spec fn event_view(e: DomEvent) -> EventView {
    match e {
        DomEvent::Open(n, a) => EventView::Open(n@, pairs_of(a@)),
        DomEvent::Text(t) => EventView::Text(t@),
        DomEvent::Other => EventView::Other,
        DomEvent::Close => EventView::Close,
    }
}

pub open spec fn events_view(s: Seq<DomEvent>) -> Seq<EventView> {
    s.map_values(|e: DomEvent| event_view(e))
}

/// Attributes given in order, each setting its name (a later one with the
/// same name replaces the earlier).
pub open spec fn attrs_of_pairs(p: Seq<(Seq<char>, Seq<char>)>) -> Seq<(Seq<char>, Seq<char>)>
    decreases p.len(),
{
    if p.len() == 0 {
        Seq::empty()
    } else {
        insert_pair(attrs_of_pairs(p.drop_last()), p.last().0, p.last().1)
    }
}

/// What a node under construction is.
pub enum FrameKind {
    Element(Seq<char>, Seq<(Seq<char>, Seq<char>)>),
    Text(Seq<char>),
    Other,
}

/// A node under construction and the children it has so far.
pub type Frame = (FrameKind, Seq<DomView>);

pub open spec fn frame_node(f: Frame) -> DomView {
    match f.0 {
        FrameKind::Element(n, a) => DomView::Element { name: n, attrs: a, children: f.1 },
        FrameKind::Text(t) => DomView::Text(t),
        FrameKind::Other => DomView::Other(f.1),
    }
}

/// Ends the innermost open node: it becomes the last child of the node
/// around it. The outermost node (the document) is never ended.
pub open spec fn close_top(frames: Seq<Frame>) -> Seq<Frame> {
    if frames.len() <= 1 {
        frames
    } else {
        let top = frames.last();
        let rest = frames.drop_last();
        let parent = rest.last();
        rest.update(rest.len() - 1, (parent.0, parent.1.push(frame_node(top))))
    }
}

pub open spec fn step(frames: Seq<Frame>, e: EventView) -> Seq<Frame> {
    match e {
        EventView::Open(n, a) => frames.push((FrameKind::Element(n, attrs_of_pairs(a)), Seq::empty())),
        EventView::Text(t) => frames.push((FrameKind::Text(t), Seq::empty())),
        EventView::Other => frames.push((FrameKind::Other, Seq::empty())),
        EventView::Close => close_top(frames),
    }
}

pub open spec fn run(frames: Seq<Frame>, events: Seq<EventView>) -> Seq<Frame>
    decreases events.len(),
{
    if events.len() == 0 {
        frames
    } else {
        step(run(frames, events.drop_last()), events.last())
    }
}

pub open spec fn close_all(frames: Seq<Frame>) -> Seq<Frame>
    decreases frames.len(),
{
    if frames.len() <= 1 {
        frames
    } else {
        close_all(close_top(frames))
    }
}

/// The document that a walk describes; nodes left open at the end are
/// ended there, and ends without a start are ignored.
pub open spec fn document_of_events(events: Seq<EventView>) -> DomView {
    frame_node(close_all(run(seq![(FrameKind::Other, Seq::empty())], events))[0])
}

/// The walk of a node for writing it out: elements and text; other nodes
/// are left out.
pub open spec fn node_events(n: DomView) -> Seq<EventView>
    decreases n,
{
    match n {
        DomView::Element { name, attrs, children } => seq![EventView::Open(name, attrs)]
            + forest_events(children) + seq![EventView::Close],
        DomView::Text(t) => seq![EventView::Text(t), EventView::Close],
        DomView::Other(_) => Seq::empty(),
    }
}

pub open spec fn forest_events(s: Seq<DomView>) -> Seq<EventView>
    decreases s,
{
    if s.len() == 0 {
        Seq::empty()
    } else {
        forest_events(s.drop_last()) + node_events(s.last())
    }
}

/// The number of starts minus the number of ends.
pub open spec fn open_depth(events: Seq<EventView>) -> int
    decreases events.len(),
{
    if events.len() == 0 {
        0
    } else {
        open_depth(events.drop_last()) + match events.last() {
            EventView::Close => -1int,
            EventView::Other => 0int,
            _ => 1int,
        }
    }
}

/// No end comes before its start, and the walk holds no `Other` step.
pub open spec fn balanced(events: Seq<EventView>) -> bool {
    &&& forall|k: int| 0 <= k <= events.len() ==> open_depth(#[trigger] events.take(k)) >= 0
    &&& forall|k: int| 0 <= k < events.len() ==> !(#[trigger] events[k] is Other)
}

pub proof fn lemma_open_depth_append(a: Seq<EventView>, b: Seq<EventView>)
    ensures
        open_depth(a + b) == open_depth(a) + open_depth(b),
    decreases b.len(),
{
    if b.len() == 0 {
        assert(a + b =~= a);
    } else {
        lemma_open_depth_append(a, b.drop_last());
        assert((a + b).drop_last() =~= a + b.drop_last());
    }
}

pub proof fn lemma_balanced_append(a: Seq<EventView>, b: Seq<EventView>)
    requires
        balanced(a),
        balanced(b),
    ensures
        balanced(a + b),
        open_depth(a + b) == open_depth(a) + open_depth(b),
{
    lemma_open_depth_append(a, b);
    assert forall|k: int| 0 <= k <= (a + b).len() implies open_depth(#[trigger] (a + b).take(k))
        >= 0 by {
        if k <= a.len() {
            assert((a + b).take(k) =~= a.take(k));
        } else {
            assert((a + b).take(k) =~= a + b.take(k - a.len()));
            lemma_open_depth_append(a, b.take(k - a.len()));
            assert(a.take(a.len() as int) =~= a);
            assert(open_depth(b.take(k - a.len())) >= 0);
        }
    }
    assert forall|k: int| 0 <= k < (a + b).len() implies !(#[trigger] (a + b)[k] is Other) by {
        if k >= a.len() {
            assert((a + b)[k] == b[k - a.len()]);
        }
    }
}

proof fn lemma_wrap_balanced(open: EventView, inner: Seq<EventView>)
    requires
        balanced(inner),
        open_depth(inner) == 0,
        !(open is Close),
        !(open is Other),
    ensures
        balanced(seq![open] + inner + seq![EventView::Close]),
        open_depth(seq![open] + inner + seq![EventView::Close]) == 0,
{
    let s = seq![open] + inner + seq![EventView::Close];
    assert(seq![open].drop_last() =~= Seq::<EventView>::empty());
    assert(seq![open].last() == open);
    assert(open_depth(Seq::<EventView>::empty()) == 0);
    assert(open_depth(seq![open]) == 1);
    lemma_open_depth_append(seq![open], inner);
    lemma_open_depth_append(seq![open] + inner, seq![EventView::Close]);
    assert(seq![EventView::Close].drop_last() =~= Seq::<EventView>::empty());
    assert(seq![EventView::Close].last() == EventView::Close);
    assert(open_depth(seq![EventView::Close]) == -1);
    assert forall|k: int| 0 <= k <= s.len() implies open_depth(#[trigger] s.take(k)) >= 0 by {
        if k == 0 {
            assert(s.take(0) =~= Seq::<EventView>::empty());
        } else if k <= inner.len() + 1 {
            assert(s.take(k) =~= seq![open] + inner.take(k - 1));
            lemma_open_depth_append(seq![open], inner.take(k - 1));
        } else {
            assert(s.take(k) =~= s);
        }
    }
    assert forall|k: int| 0 <= k < s.len() implies !(#[trigger] s[k] is Other) by {
        if 1 <= k < inner.len() + 1 {
            assert(s[k] == inner[k - 1]);
        }
    }
}

pub proof fn lemma_node_events_balanced(n: DomView)
    ensures
        balanced(node_events(n)),
        open_depth(node_events(n)) == 0,
    decreases n,
{
    match n {
        DomView::Element { name, attrs, children } => {
            lemma_forest_events_balanced(children);
            lemma_wrap_balanced(EventView::Open(name, attrs), forest_events(children));
        },
        DomView::Text(t) => {
            lemma_wrap_balanced(EventView::Text(t), Seq::empty());
            assert(seq![EventView::Text(t)] + Seq::<EventView>::empty() + seq![EventView::Close]
                =~= seq![EventView::Text(t), EventView::Close]);
        },
        DomView::Other(_) => {
            assert forall|k: int| 0 <= k <= 0 implies open_depth(
                #[trigger] Seq::<EventView>::empty().take(k),
            ) >= 0 by {
                assert(Seq::<EventView>::empty().take(k) =~= Seq::<EventView>::empty());
            }
        },
    }
}

pub proof fn lemma_forest_events_balanced(s: Seq<DomView>)
    ensures
        balanced(forest_events(s)),
        open_depth(forest_events(s)) == 0,
    decreases s,
{
    if s.len() == 0 {
        assert forall|k: int| 0 <= k <= 0 implies open_depth(
            #[trigger] Seq::<EventView>::empty().take(k),
        ) >= 0 by {
            assert(Seq::<EventView>::empty().take(k) =~= Seq::<EventView>::empty());
        }
    } else {
        lemma_forest_events_balanced(s.drop_last());
        lemma_node_events_balanced(s.last());
        lemma_balanced_append(forest_events(s.drop_last()), node_events(s.last()));
    }
}


/// A map holding the given attributes, set in order.
pub fn map_from_pairs(p: &Vec<(String, String)>) -> (m: StringMap)
    ensures
        m.pairs() == attrs_of_pairs(pairs_of(p@)),
{
    let mut m = StringMap::new();
    let n = p.len();
    let mut i: usize = 0;
    while i < n
        invariant
            n == p@.len(),
            i <= n,
            m.pairs() == attrs_of_pairs(pairs_of(p@.take(i as int))),
        decreases n - i,
    {
        let k = p[i].0.clone();
        let v = p[i].1.clone();
        m.insert(k, v);
        proof {
            assert(pairs_of(p@.take(i + 1)).drop_last() =~= pairs_of(p@.take(i as int)));
        }
        i = i + 1;
    }
    assert(p@.take(n as int) =~= p@);
    m
}

/// The entries of a map as a list of pairs.
pub fn pairs_from_map(m: &StringMap) -> (p: Vec<(String, String)>)
    ensures
        pairs_of(p@) == m.pairs(),
{
    let mut p: Vec<(String, String)> = Vec::new();
    let n = m.len();
    let mut i: usize = 0;
    while i < n
        invariant
            n == m.pairs().len(),
            i <= n,
            pairs_of(p@) =~= m.pairs().take(i as int),
        decreases n - i,
    {
        let k = m.key_at(i).clone();
        let v = m.value_at(i).clone();
        let ghost prev = p@;
        p.push((k, v));
        proof {
            assert(p@ =~= prev.push((k, v)));
            assert(pairs_of(p@) =~= pairs_of(prev).push((k@, v@)));
            assert(m.pairs().take(i + 1) =~= m.pairs().take(i as int).push(m.pairs()[i as int]));
        }
        i = i + 1;
    }
    assert(m.pairs().take(n as int) =~= m.pairs());
    p
}

/// A node under construction.
pub enum BuildKind {
    Element(String, StringMap),
    Text(String),
    Other,
}

pub open spec fn build_kind_view(k: BuildKind) -> FrameKind {
    match k {
        BuildKind::Element(n, a) => FrameKind::Element(n@, a.pairs()),
        BuildKind::Text(t) => FrameKind::Text(t@),
        BuildKind::Other => FrameKind::Other,
    }
}

pub open spec fn frames_view(f: Seq<(BuildKind, Vec<DomNode>)>) -> Seq<Frame> {
    f.map_values(|x: (BuildKind, Vec<DomNode>)| (build_kind_view(x.0), doms_view(x.1@)))
}

fn finish_frame(kind: BuildKind, children: Vec<DomNode>) -> (n: DomNode)
    ensures
        n@ == frame_node((build_kind_view(kind), doms_view(children@))),
{
    match kind {
        BuildKind::Element(name, attrs) => DomNode::Element(ElementNode { name, attrs, children }),
        BuildKind::Text(t) => DomNode::Text(t),
        BuildKind::Other => DomNode::Other(children),
    }
}

pub proof fn lemma_doms_view_empty()
    ensures
        doms_view(Seq::<DomNode>::empty()) == Seq::<DomView>::empty(),
{
    assert(doms_view(Seq::<DomNode>::empty()) =~= Seq::<DomView>::empty());
}

pub proof fn lemma_doms_view_push(s: Seq<DomNode>, n: DomNode)
    ensures
        doms_view(s.push(n)) == doms_view(s).push(dom_view(n)),
{
    assert(doms_view(s.push(n)) =~= doms_view(s).push(dom_view(n)));
}

fn close_top_exec(frames: &mut Vec<(BuildKind, Vec<DomNode>)>)
    ensures
        frames_view(final(frames)@) == close_top(frames_view(old(frames)@)),
        final(frames)@.len() == if old(frames)@.len() <= 1 {
            old(frames)@.len()
        } else {
            (old(frames)@.len() - 1) as nat
        },
{
    if frames.len() <= 1 {
        return;
    }
    let ghost fv = frames_view(frames@);
    let top = frames.pop().unwrap();
    let parent = frames.pop().unwrap();
    let ghost rest = frames@;
    let node = finish_frame(top.0, top.1);
    let (pk, mut pch) = parent;
    let ghost old_pch = pch@;
    pch.push(node);
    proof {
        lemma_doms_view_push(old_pch, node);
    }
    frames.push((pk, pch));
    proof {
        assert(fv.drop_last() =~= frames_view(rest).push(fv[fv.len() - 2]));
        assert(frames_view(frames@) =~= close_top(fv));
    }
}

/// The document that a walk describes (see `document_of_events`).
pub fn build_document(events: &Vec<DomEvent>) -> (d: DomNode)
    ensures
        d@ == document_of_events(events_view(events@)),
{
    let mut frames: Vec<(BuildKind, Vec<DomNode>)> = Vec::new();
    frames.push((BuildKind::Other, Vec::new()));
    let ghost init = seq![(FrameKind::Other, Seq::<DomView>::empty())];
    proof {
        lemma_doms_view_empty();
    }
    assert(frames_view(frames@) =~= init);
    let n = events.len();
    let mut i: usize = 0;
    while i < n
        invariant
            n == events@.len(),
            i <= n,
            frames@.len() >= 1,
            frames_view(frames@) == run(init, events_view(events@).take(i as int)),
        decreases n - i,
    {
        let ghost before = frames_view(frames@);
        let ghost before_exec = frames@;
        proof {
            lemma_doms_view_empty();
        }
        match &events[i] {
            DomEvent::Open(name, attrs) => {
                let a = map_from_pairs(attrs);
                frames.push((BuildKind::Element(name.clone(), a), Vec::new()));
                assert(frames_view(frames@) =~= before.push(
                    (FrameKind::Element(name@, attrs_of_pairs(pairs_of(attrs@))), Seq::empty()),
                ));
            },
            DomEvent::Text(t) => {
                frames.push((BuildKind::Text(t.clone()), Vec::new()));
                assert(frames_view(frames@) =~= before.push((FrameKind::Text(t@), Seq::empty())));
            },
            DomEvent::Other => {
                frames.push((BuildKind::Other, Vec::new()));
                assert(frames_view(frames@) =~= before.push((FrameKind::Other, Seq::empty())));
            },
            DomEvent::Close => {
                close_top_exec(&mut frames);
            },
        }
        proof {
            let ev = events_view(events@);
            assert(ev.take(i + 1).drop_last() =~= ev.take(i as int));
            assert(ev.take(i + 1).last() == event_view(events@[i as int]));
            assert(frames_view(frames@) =~= step(before, event_view(events@[i as int])));
        }
        i = i + 1;
    }
    assert(events_view(events@).take(n as int) =~= events_view(events@));
    while frames.len() > 1
        invariant
            frames@.len() >= 1,
            close_all(frames_view(frames@)) == close_all(
                run(init, events_view(events@)),
            ),
        decreases frames@.len(),
    {
        close_top_exec(&mut frames);
    }
    let ghost fv = frames_view(frames@);
    assert(close_all(fv) == fv);
    let root = frames.pop().unwrap();
    assert(fv[0] == (build_kind_view(root.0), doms_view(root.1@)));
    finish_frame(root.0, root.1)
}


/// Appends the walk of a node for writing it out (see `node_events`).
pub fn push_node_events(n: &DomNode, out: &mut Vec<DomEvent>)
    ensures
        events_view(final(out)@) == events_view(old(out)@) + node_events(n@),
    decreases n,
{
    match n {
        DomNode::Element(e) => {
            let ghost start = events_view(out@);
            let attrs = pairs_from_map(&e.attrs);
            out.push(DomEvent::Open(e.name.clone(), attrs));
            proof {
                assert(events_view(out@) =~= start + seq![EventView::Open(e.name@, e.attrs.pairs())]);
            }
            let ghost mid = events_view(out@);
            let k = e.children.len();
            let mut i: usize = 0;
            while i < k
                invariant
                    *n == DomNode::Element(*e),
                    k == e.children@.len(),
                    i <= k,
                    events_view(out@) == mid + forest_events(doms_view(e.children@).take(i as int)),
                decreases k - i,
            {
                proof {
                    assert(decreases_to!(*n => (*n)->Element_0));
                    assert((*n)->Element_0 == *e);
                    assert(decreases_to!(*e => e.children));
                    assert(decreases_to!(e.children => e.children@));
                    assert(decreases_to!(e.children@ => e.children@[i as int]));
                    assert(decreases_to!(*n => e.children@[i as int]));
                }
                push_node_events(&e.children[i], out);
                proof {
                    let cv = doms_view(e.children@);
                    assert(cv.take(i + 1).drop_last() =~= cv.take(i as int));
                    assert(cv.take(i + 1).last() == dom_view(e.children@[i as int]));
                }
                i = i + 1;
            }
            assert(doms_view(e.children@).take(k as int) =~= doms_view(e.children@));
            let ghost before_close = out@;
            out.push(DomEvent::Close);
            proof {
                assert(events_view(out@) =~= events_view(before_close).push(EventView::Close));
                assert(events_view(out@) =~= start + node_events(n@));
            }
        },
        DomNode::Text(t) => {
            let ghost start = events_view(out@);
            out.push(DomEvent::Text(t.clone()));
            out.push(DomEvent::Close);
            assert(events_view(out@) =~= start + node_events(n@));
        },
        DomNode::Other(_) => {
            assert(events_view(out@) =~= events_view(old(out)@) + node_events(n@));
        },
    }
}

/// The walk of a sequence of nodes for writing them out.
pub fn forest_to_events(nodes: &Vec<DomNode>) -> (r: Vec<DomEvent>)
    ensures
        events_view(r@) == forest_events(doms_view(nodes@)),
{
    let mut out: Vec<DomEvent> = Vec::new();
    let k = nodes.len();
    let mut i: usize = 0;
    assert(events_view(out@) =~= forest_events(doms_view(nodes@).take(0)));
    while i < k
        invariant
            k == nodes@.len(),
            i <= k,
            events_view(out@) == forest_events(doms_view(nodes@).take(i as int)),
        decreases k - i,
    {
        push_node_events(&nodes[i], &mut out);
        proof {
            let cv = doms_view(nodes@);
            assert(cv.take(i + 1).drop_last() =~= cv.take(i as int));
            assert(cv.take(i + 1).last() == dom_view(nodes@[i as int]));
        }
        i = i + 1;
    }
    assert(doms_view(nodes@).take(k as int) =~= doms_view(nodes@));
    out
}


proof fn lemma_first_frame_other(frames: Seq<Frame>)
    requires
        frames.len() >= 1,
        frames[0].0 is Other,
    ensures
        close_top(frames).len() >= 1,
        close_top(frames)[0].0 is Other,
{
}

proof fn lemma_run_first_frame(events: Seq<EventView>)
    ensures
        run(seq![(FrameKind::Other, Seq::<DomView>::empty())], events).len() >= 1,
        run(seq![(FrameKind::Other, Seq::<DomView>::empty())], events)[0].0 is Other,
    decreases events.len(),
{
    if events.len() > 0 {
        lemma_run_first_frame(events.drop_last());
        let f = run(seq![(FrameKind::Other, Seq::<DomView>::empty())], events.drop_last());
        lemma_first_frame_other(f);
    }
}

proof fn lemma_close_all_first_frame(frames: Seq<Frame>)
    requires
        frames.len() >= 1,
        frames[0].0 is Other,
    ensures
        close_all(frames).len() >= 1,
        close_all(frames)[0].0 is Other,
    decreases frames.len(),
{
    if frames.len() > 1 {
        lemma_first_frame_other(frames);
        lemma_close_all_first_frame(close_top(frames));
    }
}

/// The document that a walk describes is a document node.
pub proof fn lemma_document_is_other(events: Seq<EventView>)
    ensures
        document_of_events(events) is Other,
{
    lemma_run_first_frame(events);
    lemma_close_all_first_frame(run(seq![(FrameKind::Other, Seq::<DomView>::empty())], events));
}


/// A copy of a node and its descendants.
pub fn clone_node(n: &DomNode) -> (r: DomNode)
    ensures
        r@ == n@,
    decreases *n,
{
    match n {
        DomNode::Element(e) => {
            proof {
                assert(decreases_to!(*n => (*n)->Element_0));
                assert((*n)->Element_0 == *e);
                assert(decreases_to!(*e => e.children));
                assert(decreases_to!(e.children => e.children@));
            }
            let kids = clone_nodes(&e.children);
            DomNode::Element(ElementNode { name: e.name.clone(), attrs: e.attrs.duplicate(), children: kids })
        },
        DomNode::Text(t) => DomNode::Text(t.clone()),
        DomNode::Other(c) => {
            proof {
                assert(decreases_to!(*n => (*n)->Other_0));
                assert(decreases_to!(*c => c@));
            }
            DomNode::Other(clone_nodes(c))
        },
    }
}

/// A copy of a sequence of nodes.
pub fn clone_nodes(s: &Vec<DomNode>) -> (r: Vec<DomNode>)
    ensures
        doms_view(r@) == doms_view(s@),
    decreases s@,
{
    let mut out: Vec<DomNode> = Vec::new();
    let n = s.len();
    let mut i: usize = 0;
    proof {
        lemma_doms_view_empty();
    }
    while i < n
        invariant
            n == s@.len(),
            i <= n,
            doms_view(out@) == doms_view(s@).take(i as int),
        decreases n - i,
    {
        proof {
            assert(decreases_to!(s@ => s@[i as int]));
        }
        let c = clone_node(&s[i]);
        let ghost before = out@;
        out.push(c);
        proof {
            lemma_doms_view_push(before, c);
            assert(doms_view(s@).take(i + 1) =~= doms_view(s@).take(i as int).push(dom_view(s@[i as int])));
        }
        i = i + 1;
    }
    assert(doms_view(s@).take(n as int) =~= doms_view(s@));
    out
}

} // verus!
