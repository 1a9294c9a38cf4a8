use vstd::prelude::*;
use vstd::string::*;

use crate::blocks::{Block, BlockContent, InlineContent, TableContent, TableRow};
use crate::dom::{
    doms_view, forest_events, forest_to_events, lemma_forest_events_balanced, DomNode, DomView,
    ElementNode,
};
use crate::html_io::{parse_html_events, serialized_html, serialize_html_events};
use crate::string_map::{insert_pair, StringMap};
use crate::text::{ends_with, seq_ends_with, str_equal, to_owned};
use crate::dom::{
    build_document, document_of_events, events_view, lemma_document_is_other,
    lemma_doms_view_empty, lemma_doms_view_push,
};
use crate::html_io::parsed_html_events;

verus! {

/// The element names that the writer creates.
pub open spec fn supported_element(name: Seq<char>) -> bool {
    ||| name == "div"@
    ||| name == "span"@
    ||| name == "p"@
    ||| name == "ul"@
    ||| name == "ol"@
    ||| name == "li"@
    ||| name == "table"@
    ||| name == "tr"@
    ||| name == "td"@
}

pub open spec fn element(
    name: Seq<char>,
    attrs: Seq<(Seq<char>, Seq<char>)>,
    children: Seq<DomView>,
) -> DomView {
    DomView::Element { name, attrs, children }
}

/// One attribute.
pub open spec fn one_attr(k: Seq<char>, v: Seq<char>) -> Seq<(Seq<char>, Seq<char>)> {
    insert_pair(Seq::empty(), k, v)
}

/// `attrs` with an attribute `prefix + key` set for each entry of `m`, in order.
pub open spec fn with_prefixed(
    attrs: Seq<(Seq<char>, Seq<char>)>,
    prefix: Seq<char>,
    m: Seq<(Seq<char>, Seq<char>)>,
) -> Seq<(Seq<char>, Seq<char>)>
    decreases m.len(),
{
    if m.len() == 0 {
        attrs
    } else {
        insert_pair(with_prefixed(attrs, prefix, m.drop_last()), prefix + m.last().0, m.last().1)
    }
}

/// A span for a piece of inline text: its styles as `data-style-*`
/// attributes, its text as its child.
pub open spec fn span_node(i: InlineContent) -> DomView {
    element(
        "span"@,
        with_prefixed(Seq::empty(), "data-style-"@, i.styles.pairs()),
        seq![DomView::Text(i.text@)],
    )
}

pub open spec fn span_nodes(c: Seq<InlineContent>) -> Seq<DomView> {
    c.map_values(|i: InlineContent| span_node(i))
}

/// A table cell: a `bn-table-cell-content` div of spans.
pub open spec fn cell_node(cell: Seq<InlineContent>) -> DomView {
    element(
        "td"@,
        Seq::empty(),
        seq![element("div"@, one_attr("class"@, "bn-table-cell-content"@), span_nodes(cell))],
    )
}

pub open spec fn row_node(r: TableRow) -> DomView {
    element("tr"@, Seq::empty(), r.cells@.map_values(|c: Vec<InlineContent>| cell_node(c@)))
}

/// The attributes of a table: class, content type and column widths.
pub open spec fn table_attrs(t: TableContent) -> Seq<(Seq<char>, Seq<char>)> {
    insert_pair(
        insert_pair(one_attr("class"@, "bn-table"@), "data-type"@, t.content_type@),
        "data-column-widths"@,
        t.column_widths@,
    )
}

pub open spec fn table_node(t: TableContent) -> DomView {
    element("table"@, table_attrs(t), t.rows@.map_values(|r: TableRow| row_node(r)))
}

/// The `bn-block-content` div that holds a block's content, if it has any.
pub open spec fn content_nodes(c: BlockContent) -> Seq<DomView> {
    match c {
        BlockContent::Inline(v) => seq![
            element("div"@, one_attr("class"@, "bn-block-content"@), span_nodes(v@)),
        ],
        BlockContent::Table(t) => seq![
            element("div"@, one_attr("class"@, "bn-block-content"@), seq![table_node(t)]),
        ],
        BlockContent::Empty => Seq::empty(),
    }
}

/// The attributes of a `bn-block` div: class, type and the properties as
/// `data-prop-*` attributes.
pub open spec fn block_attrs(b: Block) -> Seq<(Seq<char>, Seq<char>)> {
    with_prefixed(
        insert_pair(one_attr("class"@, "bn-block"@), "data-type"@, b.block_type@),
        "data-prop-"@,
        b.props.pairs(),
    )
}

/// A block with all its structure: a `bn-block-container` around a
/// `bn-block`, which holds the content and a `bn-block-group` of the
/// children.
pub open spec fn full_block_node(b: Block) -> DomView
    decreases b, 2nat,
{
    element(
        "div"@,
        one_attr("class"@, "bn-block-container"@),
        seq![
            element(
                "div"@,
                block_attrs(b),
                content_nodes(b.content) + if b.children@.len() > 0 {
                    seq![full_group_node(b.children@)]
                } else {
                    Seq::empty()
                },
            ),
        ],
    )
}

/// A `bn-block-group` div of blocks.
pub open spec fn full_group_node(s: Seq<Block>) -> DomView
    decreases s, 1nat,
{
    element("div"@, one_attr("class"@, "bn-block-group"@), full_block_nodes(s))
}

pub open spec fn full_block_nodes(s: Seq<Block>) -> Seq<DomView>
    decreases s, 0nat,
{
    Seq::new(s.len(), |i: int| if 0 <= i < s.len() { full_block_node(s[i]) } else { arbitrary() })
}

/// Whether a node is or holds a `div` element.
pub open spec fn has_div(n: DomView) -> bool
    decreases n,
{
    match n {
        DomView::Element { name, attrs, children } => name == "div"@ || any_has_div(children),
        DomView::Text(_) => false,
        DomView::Other(c) => any_has_div(c),
    }
}

pub open spec fn any_has_div(s: Seq<DomView>) -> bool
    decreases s,
{
    if s.len() == 0 {
        false
    } else {
        has_div(s[0]) || any_has_div(s.drop_first())
    }
}

/// The node with `gs` appended to the children of its first `div` in tree
/// order.
pub open spec fn add_to_first_div(n: DomView, gs: Seq<DomView>) -> DomView
    decreases n,
{
    match n {
        DomView::Element { name, attrs, children } => if name == "div"@ {
            DomView::Element { name, attrs, children: children + gs }
        } else {
            DomView::Element { name, attrs, children: add_to_first_div_forest(children, gs) }
        },
        DomView::Text(_) => n,
        DomView::Other(c) => DomView::Other(add_to_first_div_forest(c, gs)),
    }
}

pub open spec fn add_to_first_div_forest(s: Seq<DomView>, gs: Seq<DomView>) -> Seq<DomView>
    decreases s,
{
    if s.len() == 0 {
        s
    } else if has_div(s[0]) {
        s.update(0, add_to_first_div(s[0], gs))
    } else {
        seq![s[0]] + add_to_first_div_forest(s.drop_first(), gs)
    }
}

/// The document that the writers start from: the parse of `<div></div>`.
pub open spec fn base_document() -> DomView {
    document_of_events(parsed_html_events("<div></div>"@))
}

/// The children of a document.
pub open spec fn document_children(d: DomView) -> Seq<DomView> {
    match d {
        DomView::Other(c) => c,
        _ => Seq::empty(),
    }
}

/// The walk that is written out for a document whose first div receives `gs`.
pub open spec fn written_events(gs: Seq<DomView>) -> Seq<crate::dom::EventView> {
    forest_events(document_children(add_to_first_div(base_document(), gs)))
}

/// The full HTML of blocks.
pub open spec fn full_html(blocks: Seq<Block>) -> Seq<char> {
    serialized_html(written_events(seq![full_group_node(blocks)]))
}

fn create_element(name: &str) -> (n: ElementNode)
    requires
        supported_element(name@),
    ensures
        n.name@ == name@,
        n.attrs.pairs() == Seq::<(Seq<char>, Seq<char>)>::empty(),
        n.children@ == Seq::<DomNode>::empty(),
{
    ElementNode { name: to_owned(name), attrs: StringMap::new(), children: Vec::new() }
}

fn push_child(e: &mut ElementNode, c: DomNode)
    ensures
        final(e).name == old(e).name,
        final(e).attrs == old(e).attrs,
        doms_view(final(e).children@) == doms_view(old(e).children@).push(c@),
{
    let ghost before = e.children@;
    e.children.push(c);
    proof {
        lemma_doms_view_push(before, c);
    }
}

fn set_attr(e: &mut ElementNode, k: &str, v: &str)
    ensures
        final(e).name == old(e).name,
        final(e).children == old(e).children,
        final(e).attrs.pairs() == insert_pair(old(e).attrs.pairs(), k@, v@),
{
    e.attrs.insert(to_owned(k), to_owned(v));
}

fn concat(a: &str, b: &str) -> (r: String)
    ensures
        r@ == a@ + b@,
{
    let mut s = to_owned(a);
    s.append(b);
    s
}

fn set_prefixed(e: &mut ElementNode, prefix: &str, m: &StringMap)
    ensures
        final(e).name == old(e).name,
        final(e).children == old(e).children,
        final(e).attrs.pairs() == with_prefixed(old(e).attrs.pairs(), prefix@, m.pairs()),
{
    let n = m.len();
    let mut i: usize = 0;
    while i < n
        invariant
            n == m.pairs().len(),
            i <= n,
            e.name == old(e).name,
            e.children == old(e).children,
            e.attrs.pairs() == with_prefixed(old(e).attrs.pairs(), prefix@, m.pairs().take(i as int)),
        decreases n - i,
    {
        let key = concat(prefix, m.key_at(i).as_str());
        let value = m.value_at(i).clone();
        e.attrs.insert(key, value);
        proof {
            assert(m.pairs().take(i + 1).drop_last() =~= m.pairs().take(i as int));
        }
        i = i + 1;
    }
    assert(m.pairs().take(n as int) =~= m.pairs());
}

fn span_for(inline: &InlineContent) -> (n: DomNode)
    ensures
        n@ == span_node(*inline),
{
    let mut span = create_element("span");
    set_prefixed(&mut span, "data-style-", &inline.styles);
    push_child(&mut span, DomNode::Text(inline.text.clone()));
    let n = DomNode::Element(span);
    assert(doms_view(Seq::<DomNode>::empty()) =~= Seq::<DomView>::empty());
    assert(seq![DomView::Text(inline.text@)] =~= Seq::<DomView>::empty().push(
        DomView::Text(inline.text@),
    ));
    n
}

fn push_spans(e: &mut ElementNode, content: &Vec<InlineContent>)
    ensures
        final(e).name == old(e).name,
        final(e).attrs == old(e).attrs,
        doms_view(final(e).children@) == doms_view(old(e).children@) + span_nodes(content@),
{
    let n = content.len();
    let mut i: usize = 0;
    while i < n
        invariant
            n == content@.len(),
            i <= n,
            e.name == old(e).name,
            e.attrs == old(e).attrs,
            doms_view(e.children@) == doms_view(old(e).children@) + span_nodes(content@.take(i as int)),
        decreases n - i,
    {
        let span = span_for(&content[i]);
        push_child(e, span);
        proof {
            assert(span_nodes(content@.take(i + 1)) =~= span_nodes(content@.take(i as int)).push(
                span_node(content@[i as int]),
            ));
        }
        i = i + 1;
    }
    assert(content@.take(n as int) =~= content@);
}

fn table_for(table: &TableContent) -> (n: DomNode)
    ensures
        n@ == table_node(*table),
{
    let mut t = create_element("table");
    set_attr(&mut t, "class", "bn-table");
    set_attr(&mut t, "data-type", table.content_type.as_str());
    set_attr(&mut t, "data-column-widths", table.column_widths.as_str());
    let rows = &table.rows;
    let nr = rows.len();
    let mut r: usize = 0;
    assert(doms_view(t.children@) =~= rows@.take(0).map_values(|x: TableRow| row_node(x)));
    while r < nr
        invariant
            nr == rows@.len(),
            r <= nr,
            t.name@ == "table"@,
            t.attrs.pairs() == table_attrs(*table),
            rows == table.rows,
            doms_view(t.children@) == rows@.take(r as int).map_values(|x: TableRow| row_node(x)),
        decreases nr - r,
    {
        let mut tr = create_element("tr");
        let cells = &rows[r].cells;
        let nc = cells.len();
        let mut c: usize = 0;
        assert(doms_view(tr.children@) =~= cells@.take(0).map_values(
            |x: Vec<InlineContent>| cell_node(x@),
        ));
        while c < nc
            invariant
                nc == cells@.len(),
                c <= nc,
                tr.name@ == "tr"@,
                tr.attrs.pairs() == Seq::<(Seq<char>, Seq<char>)>::empty(),
                doms_view(tr.children@) == cells@.take(c as int).map_values(
                    |x: Vec<InlineContent>| cell_node(x@),
                ),
            decreases nc - c,
        {
            let mut td = create_element("td");
            let mut div = create_element("div");
            set_attr(&mut div, "class", "bn-table-cell-content");
            push_spans(&mut div, &cells[c]);
            assert(doms_view(Seq::<DomNode>::empty()) =~= Seq::<DomView>::empty());
            push_child(&mut td, DomNode::Element(div));
            assert(doms_view(td.children@) =~= seq![
                DomView::Element { name: "div"@, attrs: one_attr("class"@, "bn-table-cell-content"@), children: span_nodes(cells@[c as int]@) },
            ]);
            push_child(&mut tr, DomNode::Element(td));
            proof {
                assert(cells@.take(c + 1).map_values(|x: Vec<InlineContent>| cell_node(x@))
                    =~= cells@.take(c as int).map_values(|x: Vec<InlineContent>| cell_node(x@)).push(
                    cell_node(cells@[c as int]@),
                ));
            }
            c = c + 1;
        }
        assert(cells@.take(nc as int) =~= cells@);
        push_child(&mut t, DomNode::Element(tr));
        proof {
            assert(rows@.take(r + 1).map_values(|x: TableRow| row_node(x)) =~= rows@.take(
                r as int,
            ).map_values(|x: TableRow| row_node(x)).push(row_node(rows@[r as int])));
        }
        r = r + 1;
    }
    assert(rows@.take(nr as int) =~= rows@);
    DomNode::Element(t)
}

/// Appends the `bn-block-content` div of a block's content, if any.
fn push_content(e: &mut ElementNode, content: &BlockContent)
    ensures
        final(e).name == old(e).name,
        final(e).attrs == old(e).attrs,
        doms_view(final(e).children@) == doms_view(old(e).children@) + content_nodes(*content),
{
    match content {
        BlockContent::Inline(c) => {
            let mut div = create_element("div");
            set_attr(&mut div, "class", "bn-block-content");
            assert(doms_view(Seq::<DomNode>::empty()) =~= Seq::<DomView>::empty());
            push_spans(&mut div, c);
            push_child(e, DomNode::Element(div));
        },
        BlockContent::Table(t) => {
            let mut div = create_element("div");
            set_attr(&mut div, "class", "bn-block-content");
            let table = table_for(t);
            assert(doms_view(Seq::<DomNode>::empty()) =~= Seq::<DomView>::empty());
            push_child(&mut div, table);
            push_child(e, DomNode::Element(div));
        },
        BlockContent::Empty => {
            assert(doms_view(e.children@) =~= doms_view(e.children@) + Seq::<DomView>::empty());
        },
    }
}

fn full_block_for(block: &Block) -> (n: DomNode)
    ensures
        n@ == full_block_node(*block),
    decreases block, 1nat,
{
    let mut container = create_element("div");
    set_attr(&mut container, "class", "bn-block-container");
    let mut block_elem = create_element("div");
    set_attr(&mut block_elem, "class", "bn-block");
    set_attr(&mut block_elem, "data-type", block.block_type.as_str());
    set_prefixed(&mut block_elem, "data-prop-", &block.props);
    assert(doms_view(Seq::<DomNode>::empty()) =~= Seq::<DomView>::empty());
    push_content(&mut block_elem, &block.content);
    if block.children.len() > 0 {
        let group = full_group_for(block.children.as_slice());
        push_child(&mut block_elem, group);
    }
    assert(doms_view(block_elem.children@) =~= content_nodes(block.content) + if block.children@.len() > 0 {
        seq![full_group_node(block.children@)]
    } else {
        Seq::empty()
    });
    push_child(&mut container, DomNode::Element(block_elem));
    DomNode::Element(container)
}

fn full_group_for(blocks: &[Block]) -> (n: DomNode)
    ensures
        n@ == full_group_node(blocks@),
    decreases blocks@, 0nat,
{
    let mut group = create_element("div");
    set_attr(&mut group, "class", "bn-block-group");
    let n = blocks.len();
    let mut i: usize = 0;
    assert(doms_view(group.children@) =~= full_block_nodes(blocks@.take(0)));
    while i < n
        invariant
            n == blocks@.len(),
            i <= n,
            group.name@ == "div"@,
            group.attrs.pairs() == one_attr("class"@, "bn-block-group"@),
            doms_view(group.children@) == full_block_nodes(blocks@.take(i as int)),
        decreases n - i,
    {
        let b = full_block_for(&blocks[i]);
        push_child(&mut group, b);
        proof {
            assert(full_block_nodes(blocks@.take(i + 1)) =~= full_block_nodes(
                blocks@.take(i as int),
            ).push(full_block_node(blocks@[i as int])));
        }
        i = i + 1;
    }
    assert(blocks@.take(n as int) =~= blocks@);
    DomNode::Element(group)
}


proof fn lemma_add_forest_at(sv: Seq<DomView>, gs: Seq<DomView>, i: int)
    requires
        0 <= i <= sv.len(),
        forall|j: int| 0 <= j < i ==> !has_div(#[trigger] sv[j]),
    ensures
        i < sv.len() && has_div(sv[i]) ==> any_has_div(sv) && add_to_first_div_forest(sv, gs)
            == sv.update(i, add_to_first_div(sv[i], gs)),
        i == sv.len() ==> !any_has_div(sv) && add_to_first_div_forest(sv, gs) == sv,
    decreases i,
{
    if i == 0 {
        if sv.len() == 0 {
        }
    } else {
        let t = sv.drop_first();
        assert forall|j: int| 0 <= j < i - 1 implies !has_div(#[trigger] t[j]) by {
            assert(t[j] == sv[j + 1]);
        }
        lemma_add_forest_at(t, gs, i - 1);
        assert(!has_div(sv[0]));
        if i < sv.len() && has_div(sv[i]) {
            assert(t[i - 1] == sv[i]);
            assert(seq![sv[0]] + t.update(i - 1, add_to_first_div(sv[i], gs)) =~= sv.update(
                i,
                add_to_first_div(sv[i], gs),
            ));
        }
        if i == sv.len() {
            assert(seq![sv[0]] + t =~= sv);
        }
    }
}

fn add_to_first_div_exec(n: DomNode, gs: Vec<DomNode>) -> (r: (DomNode, Option<Vec<DomNode>>))
    ensures
        has_div(n@) ==> r.1 is None && r.0@ == add_to_first_div(n@, doms_view(gs@)),
        !has_div(n@) ==> r.1 == Some(gs) && r.0@ == n@,
    decreases n, 1nat,
{
    match n {
        DomNode::Element(e) => {
            let ElementNode { name, attrs, children } = e;
            if str_equal(name.as_str(), "div") {
                let mut children = children;
                let mut gs = gs;
                let ghost cv = doms_view(children@);
                let ghost gv = doms_view(gs@);
                children.append(&mut gs);
                assert(doms_view(children@) =~= cv + gv);
                (DomNode::Element(ElementNode { name, attrs, children }), None)
            } else {
                proof {
                    assert(decreases_to!(n => (n)->Element_0));
                }
                let (cs, left) = add_to_first_div_forest_exec(children, gs);
                (DomNode::Element(ElementNode { name, attrs, children: cs }), left)
            }
        },
        DomNode::Text(t) => (DomNode::Text(t), Some(gs)),
        DomNode::Other(c) => {
            let (cs, left) = add_to_first_div_forest_exec(c, gs);
            (DomNode::Other(cs), left)
        },
    }
}

fn add_to_first_div_forest_exec(s: Vec<DomNode>, gs: Vec<DomNode>) -> (r: (
    Vec<DomNode>,
    Option<Vec<DomNode>>,
))
    ensures
        any_has_div(doms_view(s@)) ==> r.1 is None && doms_view(r.0@)
            == add_to_first_div_forest(doms_view(s@), doms_view(gs@)),
        !any_has_div(doms_view(s@)) ==> r.1 == Some(gs) && doms_view(r.0@) == doms_view(s@),
    decreases s@, 0nat,
{
    let ghost sv = doms_view(s@);
    let ghost s0 = s@;
    let ghost g0 = gs;
    let mut s = s;
    let mut gs = gs;
    let n = s.len();
    let mut i: usize = 0;
    #[verifier::loop_isolation(false)]
    while i < n
        invariant
            n == s@.len(),
            n == s0.len(),
            i <= n,
            sv == doms_view(s0),
            doms_view(s@) == sv,
            gs == g0,
            forall|j: int| 0 <= j < i ==> !has_div(#[trigger] sv[j]),
            forall|j: int| i <= j < n ==> s@[j] == s0[j],
        decreases n - i,
    {
        let ghost before = s@;
        let c = s.remove(i);
        assert(c == s0[i as int]);
        proof {
            assert(decreases_to!(s0 => s0[i as int]));
        }
        let (c2, left) = add_to_first_div_exec(c, gs);
        s.insert(i, c2);
        assert(sv[i as int] == crate::dom::dom_view(c));
        match left {
            None => {
                proof {
                    lemma_add_forest_at(sv, doms_view(g0@), i as int);
                    assert(doms_view(s@) =~= sv.update(i as int, add_to_first_div(sv[i as int], doms_view(g0@))));
                }
                return (s, None);
            },
            Some(g) => {
                gs = g;
                proof {
                    assert(doms_view(s@) =~= sv);
                    assert forall|j: int| i + 1 <= j < n implies s@[j] == s0[j] by {
                        assert(s@[j] == before[j]);
                    }
                }
            },
        }
        i = i + 1;
    }
    proof {
        lemma_add_forest_at(sv, doms_view(g0@), n as int);
    }
    (s, Some(gs))
}

/// Converts blocks to HTML while preserving all block structure and data,
/// or `None` where the document it starts from holds no `div` to write
/// into.
pub fn try_blocks_to_full_html(blocks: &[Block]) -> (r: Option<String>)
    ensures
        has_div(base_document()) <==> r is Some,
        r matches Some(html) ==> html@ == full_html(blocks@),
{
    let events = parse_html_events("<div></div>");
    let doc = build_document(&events);
    proof {
        lemma_document_is_other(events_view(events@));
    }
    let group = full_group_for(blocks);
    let mut gs: Vec<DomNode> = Vec::new();
    gs.push(group);
    assert(doms_view(gs@) =~= seq![full_group_node(blocks@)]);
    let (doc2, left) = add_to_first_div_exec(doc, gs);
    if left.is_some() {
        return None;
    }
    match doc2 {
        DomNode::Other(children) => {
            let events2 = forest_to_events(&children);
            proof {
                lemma_forest_events_balanced(doms_view(children@));
            }
            Some(serialize_html_events(&events2))
        },
        _ => {
            None
        },
    }
}


/// Converts blocks to HTML while preserving all block structure and data.
/// This HTML can be parsed back to blocks without data loss: see
/// `round_trip::lemma_full_html_reads_back` for the tree it is written
/// from. What that law leaves out: a piece of inline text that is only
/// white space is dropped, and a property whose name begins with
/// `data-prop-` loses that prefix. The HTML parser also lower-cases
/// attribute names, so property and style names come back in lower case.
pub fn blocks_to_full_html(blocks: &[Block]) -> (html: String)
    requires
        has_div(base_document()),
    ensures
        html@ == full_html(blocks@),
{
    match try_blocks_to_full_html(blocks) {
        Some(html) => html,
        None => String::new(),
    }
}

/// A block whose type ends in `ListItem` is written as a list item.
pub open spec fn lossy_is_item(b: Block) -> bool {
    seq_ends_with(b.block_type@, "ListItem"@)
}

/// The list element for items of a type: `ol` for numbered items, else `ul`.
pub open spec fn list_name(t: Seq<char>) -> Seq<char> {
    if t == "numberedListItem"@ {
        "ol"@
    } else {
        "ul"@
    }
}

/// A block in the simplified structure: a list item is an `li` with its
/// children in a nested list; any other block is a `div` with its type and
/// properties as attributes and no children.
pub open spec fn lossy_block_node(b: Block) -> DomView
    decreases b, 2nat,
{
    if lossy_is_item(b) {
        element(
            "li"@,
            Seq::empty(),
            content_nodes(b.content) + if b.children@.len() > 0 {
                seq![lossy_list_node(b.children@, b.block_type@)]
            } else {
                Seq::empty()
            },
        )
    } else {
        element(
            "div"@,
            with_prefixed(one_attr("data-type"@, b.block_type@), "data-prop-"@, b.props.pairs()),
            content_nodes(b.content),
        )
    }
}

/// The nested list of the children of a list item of type `t`.
pub open spec fn lossy_list_node(s: Seq<Block>, t: Seq<char>) -> DomView
    decreases s, 1nat,
{
    element(list_name(t), Seq::empty(), lossy_block_nodes(s))
}

pub open spec fn lossy_block_nodes(s: Seq<Block>) -> Seq<DomView>
    decreases s, 0nat,
{
    Seq::new(s.len(), |i: int| if 0 <= i < s.len() { lossy_block_node(s[i]) } else { arbitrary() })
}

/// The block types that are gathered into lists.
pub open spec fn is_list_type(t: Seq<char>) -> bool {
    t == "bulletListItem"@ || t == "numberedListItem"@ || t == "checkListItem"@
}

/// The nodes written so far and the list still open: its item type, its
/// element name and its items.
pub type LossyState = (Seq<DomView>, Option<(Seq<char>, Seq<char>, Seq<DomView>)>);

pub open spec fn flush(st: LossyState) -> Seq<DomView> {
    match st.1 {
        Some(l) => st.0.push(element(l.1, Seq::empty(), l.2)),
        None => st.0,
    }
}

pub open spec fn lossy_step(st: LossyState, b: Block) -> LossyState {
    if is_list_type(b.block_type@) {
        match st.1 {
            Some(l) => if l.0 == b.block_type@ {
                (st.0, Some((l.0, l.1, l.2.push(lossy_block_node(b)))))
            } else {
                (flush(st), Some((b.block_type@, list_name(b.block_type@), seq![lossy_block_node(b)])))
            },
            None => (st.0, Some((b.block_type@, list_name(b.block_type@), seq![lossy_block_node(b)]))),
        }
    } else {
        (flush(st).push(lossy_block_node(b)), None)
    }
}

pub open spec fn lossy_state(s: Seq<Block>) -> LossyState
    decreases s.len(),
{
    if s.len() == 0 {
        (Seq::empty(), None)
    } else {
        lossy_step(lossy_state(s.drop_last()), s.last())
    }
}

/// The nodes that the simplified HTML of blocks puts into the document's
/// first div: consecutive list items of one type share a list.
pub open spec fn lossy_top_nodes(s: Seq<Block>) -> Seq<DomView> {
    flush(lossy_state(s))
}

/// The simplified HTML of blocks.
pub open spec fn lossy_html(blocks: Seq<Block>) -> Seq<char> {
    serialized_html(written_events(lossy_top_nodes(blocks)))
}

fn lossy_block_for(block: &Block) -> (n: DomNode)
    ensures
        n@ == lossy_block_node(*block),
    decreases block, 1nat,
{
    let is_item = ends_with(block.block_type.as_str(), "ListItem");
    let mut elem = if is_item {
        create_element("li")
    } else {
        create_element("div")
    };
    if !is_item {
        set_attr(&mut elem, "data-type", block.block_type.as_str());
        set_prefixed(&mut elem, "data-prop-", &block.props);
    }
    assert(doms_view(Seq::<DomNode>::empty()) =~= Seq::<DomView>::empty());
    push_content(&mut elem, &block.content);
    if block.children.len() > 0 && is_item {
        let numbered = str_equal(block.block_type.as_str(), "numberedListItem");
        let list = lossy_list_for(block.children.as_slice(), numbered);
        push_child(&mut elem, list);
    }
    proof {
        if lossy_is_item(*block) {
            assert(doms_view(elem.children@) =~= content_nodes(block.content) + if block.children@.len() > 0 {
                seq![lossy_list_node(block.children@, block.block_type@)]
            } else {
                Seq::empty()
            });
        }
    }
    DomNode::Element(elem)
}

fn lossy_list_for(blocks: &[Block], numbered: bool) -> (n: DomNode)
    ensures
        forall|t: Seq<char>| (t == "numberedListItem"@) == numbered ==> n@ == lossy_list_node(blocks@, t),
    decreases blocks@, 0nat,
{
    let mut list = if numbered {
        create_element("ol")
    } else {
        create_element("ul")
    };
    let n = blocks.len();
    let mut i: usize = 0;
    assert(doms_view(list.children@) =~= lossy_block_nodes(blocks@.take(0)));
    while i < n
        invariant
            n == blocks@.len(),
            i <= n,
            list.name@ == if numbered { "ol"@ } else { "ul"@ },
            list.attrs.pairs() == Seq::<(Seq<char>, Seq<char>)>::empty(),
            doms_view(list.children@) == lossy_block_nodes(blocks@.take(i as int)),
        decreases n - i,
    {
        let b = lossy_block_for(&blocks[i]);
        push_child(&mut list, b);
        proof {
            assert(lossy_block_nodes(blocks@.take(i + 1)) =~= lossy_block_nodes(
                blocks@.take(i as int),
            ).push(lossy_block_node(blocks@[i as int])));
        }
        i = i + 1;
    }
    assert(blocks@.take(n as int) =~= blocks@);
    DomNode::Element(list)
}

fn is_list_type_exec(t: &str) -> (r: bool)
    ensures
        r == is_list_type(t@),
{
    str_equal(t, "bulletListItem") || str_equal(t, "numberedListItem") || str_equal(t, "checkListItem")
}

/// The nodes of the simplified structure for the document's first div.
fn lossy_nodes(blocks: &[Block]) -> (r: Vec<DomNode>)
    ensures
        doms_view(r@) == lossy_top_nodes(blocks@),
{
    let mut done: Vec<DomNode> = Vec::new();
    let mut current: Option<(String, ElementNode)> = None;
    let n = blocks.len();
    let mut i: usize = 0;
    proof {
        lemma_doms_view_empty();
    }
    while i < n
        invariant
            n == blocks@.len(),
            i <= n,
            doms_view(done@) == lossy_state(blocks@.take(i as int)).0,
            match current {
                Some(c) => lossy_state(blocks@.take(i as int)).1 == Some(
                    (c.0@, c.1.name@, doms_view(c.1.children@)),
                ) && c.1.attrs.pairs() == Seq::<(Seq<char>, Seq<char>)>::empty(),
                None => lossy_state(blocks@.take(i as int)).1 is None,
            },
        decreases n - i,
    {
        let block = &blocks[i];
        let ghost st = lossy_state(blocks@.take(i as int));
        proof {
            assert(blocks@.take(i + 1).drop_last() =~= blocks@.take(i as int));
            assert(blocks@.take(i + 1).last() == *block);
        }
        if is_list_type_exec(block.block_type.as_str()) {
            let same = match &current {
                Some(c) => str_equal(c.0.as_str(), block.block_type.as_str()),
                None => false,
            };
            let item = lossy_block_for(block);
            if same {
                let (t, mut list) = current.unwrap();
                push_child(&mut list, item);
                current = Some((t, list));
            } else {
                match current {
                    Some(c) => {
                        let (_, list) = c;
                        let ghost before = done@;
                        done.push(DomNode::Element(list));
                        proof {
                            lemma_doms_view_push(before, DomNode::Element(list));
                        }
                    },
                    None => {},
                }
                let numbered = str_equal(block.block_type.as_str(), "numberedListItem");
                let mut list = if numbered {
                    create_element("ol")
                } else {
                    create_element("ul")
                };
                proof {
                    lemma_doms_view_empty();
                }
                push_child(&mut list, item);
                assert(doms_view(list.children@) =~= seq![lossy_block_node(*block)]);
                current = Some((block.block_type.clone(), list));
            }
        } else {
            match current {
                Some(c) => {
                    let (_, list) = c;
                    let ghost before = done@;
                    done.push(DomNode::Element(list));
                    proof {
                        lemma_doms_view_push(before, DomNode::Element(list));
                    }
                },
                None => {},
            }
            current = None;
            let item = lossy_block_for(block);
            let ghost before = done@;
            done.push(item);
            proof {
                lemma_doms_view_push(before, item);
            }
        }
        i = i + 1;
    }
    assert(blocks@.take(n as int) =~= blocks@);
    match current {
        Some(c) => {
            let (_, list) = c;
            let ghost before = done@;
            done.push(DomNode::Element(list));
            proof {
                lemma_doms_view_push(before, DomNode::Element(list));
            }
        },
        None => {},
    }
    done
}

/// Converts blocks to HTML with a simplified structure, or `None` where the
/// document it starts from holds no `div` to write into.
pub fn try_blocks_to_html_lossy(blocks: &[Block]) -> (r: Option<String>)
    ensures
        has_div(base_document()) <==> r is Some,
        r matches Some(html) ==> html@ == lossy_html(blocks@),
{
    let events = parse_html_events("<div></div>");
    let doc = build_document(&events);
    proof {
        lemma_document_is_other(events_view(events@));
    }
    let gs = lossy_nodes(blocks);
    let (doc2, left) = add_to_first_div_exec(doc, gs);
    if left.is_some() {
        return None;
    }
    match doc2 {
        DomNode::Other(children) => {
            let events2 = forest_to_events(&children);
            proof {
                lemma_forest_events_balanced(doms_view(children@));
            }
            Some(serialize_html_events(&events2))
        },
        _ => None,
    }
}

/// Converts blocks to HTML with a simplified structure.
/// This produces cleaner HTML but loses some block structure information.
pub fn blocks_to_html_lossy(blocks: &[Block]) -> (html: String)
    requires
        has_div(base_document()),
    ensures
        html@ == lossy_html(blocks@),
{
    match try_blocks_to_html_lossy(blocks) {
        Some(html) => html,
        None => String::new(),
    }
}

proof fn lemma_open_list_type(s: Seq<Block>)
    ensures
        lossy_state(s).1 matches Some(l) ==> s.len() > 0 && l.0 == s.last().block_type@,
    decreases s.len(),
{
    if s.len() > 0 {
        lemma_open_list_type(s.drop_last());
    }
}

proof fn lemma_run_state(s: Seq<Block>, r: Seq<Block>, t: Seq<char>)
    requires
        r.len() > 0,
        is_list_type(t),
        forall|k: int| 0 <= k < r.len() ==> (#[trigger] r[k]).block_type@ == t,
        s.len() == 0 || s.last().block_type@ != t,
    ensures
        lossy_state(s + r) == (flush(lossy_state(s)), Some((t, list_name(t), lossy_block_nodes(r)))),
    decreases r.len(),
{
    lemma_open_list_type(s);
    let x = r.last();
    assert(x == r[r.len() - 1]);
    assert((s + r).drop_last() =~= s + r.drop_last());
    assert((s + r).last() == x);
    if r.len() == 1 {
        assert(s + r.drop_last() =~= s);
        assert(lossy_block_nodes(r) =~= seq![lossy_block_node(x)]);
    } else {
        assert forall|k: int| 0 <= k < r.drop_last().len() implies (#[trigger] r.drop_last()[k]).block_type@ == t by {
            assert(r.drop_last()[k] == r[k]);
        }
        lemma_run_state(s, r.drop_last(), t);
        assert(lossy_block_nodes(r) =~= lossy_block_nodes(r.drop_last()).push(lossy_block_node(x)));
    }
}

/// In the simplified HTML, a run of list items of one type that follows
/// other blocks (or begins the document) is gathered into one list after
/// what those blocks give: an `ol` for numbered list items, a `ul` for
/// bullet and check list items.
pub proof fn lemma_list_runs(s: Seq<Block>, r: Seq<Block>, t: Seq<char>)
    requires
        r.len() > 0,
        t == "numberedListItem"@ || t == "bulletListItem"@ || t == "checkListItem"@,
        forall|k: int| 0 <= k < r.len() ==> (#[trigger] r[k]).block_type@ == t,
        s.len() == 0 || s.last().block_type@ != t,
    ensures
        t == "numberedListItem"@ ==> lossy_top_nodes(s + r) == lossy_top_nodes(s).push(
            element("ol"@, Seq::empty(), lossy_block_nodes(r)),
        ),
        t != "numberedListItem"@ ==> lossy_top_nodes(s + r) == lossy_top_nodes(s).push(
            element("ul"@, Seq::empty(), lossy_block_nodes(r)),
        ),
{
    lemma_run_state(s, r, t);
}

} // verus!
