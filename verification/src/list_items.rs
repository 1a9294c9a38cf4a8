use vstd::prelude::*;
use vstd::string::*;

use crate::blocks::{
    block_view, blocks_view, inlines_view, lemma_blocks_view_empty, lemma_blocks_view_push, Block,
    BlockContent, BlockView, ContentView, InlineContent, InlineView,
};
use crate::dom::{dom_view, doms_view, DomNode, DomView};
use crate::dom_query::{
    attr, attr_of, chain_view, child_chain, copy_chain, is_whitespace_node, is_ws_node, lname,
    lname_is, node_children, select_first, select_first_exec, Sel,
};
use crate::ids::{generate_id, IdGen};
use crate::inline_parse::{
    block_props_of, content_node_view, node_inline, nodes_inline, parse_block_props,
    parse_inline_content, parse_single_node_content, ContentNode,
};
use crate::nested_lists::is_list_node;
use crate::string_map::StringMap;
use crate::text::{all_ws, ends_with, is_blank, seq_ends_with, to_owned, trim, trim_str};

verus! {

/// What reading the children of a list item gathers: the nodes whose inline
/// text makes its content (each with its ancestors), whether a text node was
/// made from loose text before a nested list (such a node adds no inline
/// text, since inline text is read from a node's children, but it counts as
/// content), the nested list items, and the loose text not yet used.
pub struct ItemScan {
    pub content: Seq<(DomView, Seq<DomView>)>,
    pub text_node: bool,
    pub nested: Seq<BlockView>,
    pub text: Seq<char>,
}

pub open spec fn empty_scan() -> ItemScan {
    ItemScan { content: Seq::empty(), text_node: false, nested: Seq::empty(), text: Seq::empty() }
}

pub open spec fn is_li(n: DomView) -> bool {
    lname(n) == Some("li"@)
}

pub open spec fn is_div(n: DomView) -> bool {
    lname(n) == Some("div"@)
}

pub open spec fn is_content_div(n: DomView) -> bool {
    attr_of(n, "data-content"@) == Some("true"@)
}

pub open spec fn is_group_div(n: DomView) -> bool {
    attr_of(n, "data-node-type"@) == Some("blockGroup"@)
}

/// The number of block ids that reading a list item uses: one for the item
/// and those of the nested items it reads.
pub open spec fn item_count(li: DomView) -> nat
    decreases li,
{
    match li {
        DomView::Element { children, .. } => 1 + scan_count(children),
        DomView::Text(_) => 1,
        DomView::Other(c) => 1 + scan_count(c),
    }
}

pub open spec fn scan_count(c: Seq<DomView>) -> nat
    decreases c,
{
    if c.len() == 0 {
        0
    } else {
        scan_count(c.drop_last()) + child_count(c.last())
    }
}

pub open spec fn child_count(x: DomView) -> nat
    decreases x,
{
    match x {
        DomView::Element { children, .. } => if is_list_node(x) {
            items_count(children)
        } else if is_div(x) && !is_content_div(x) && is_group_div(x) {
            group_count(children)
        } else {
            0
        },
        _ => 0,
    }
}

pub open spec fn items_count(s: Seq<DomView>) -> nat
    decreases s,
{
    if s.len() == 0 {
        0
    } else {
        items_count(s.drop_last()) + if is_li(s.last()) {
            item_count(s.last())
        } else {
            0
        }
    }
}

pub open spec fn group_count(s: Seq<DomView>) -> nat
    decreases s,
{
    if s.len() == 0 {
        0
    } else {
        group_count(s.drop_last()) + match s.last() {
            DomView::Element { children, .. } => if is_list_node(s.last()) {
                items_count(children)
            } else {
                0
            },
            _ => 0,
        }
    }
}

/// The block read from a list item whose ancestors are `chain`, with the
/// ids `ids` (its own first, then those of its nested items in order).
pub open spec fn list_item_view(li: DomView, numbered: bool, chain: Seq<DomView>, ids: Seq<Seq<char>>) -> BlockView
    decreases li,
{
    let st = match li {
        DomView::Element { children, .. } => item_scan(children, chain.push(li), ids.skip(1)),
        DomView::Text(_) => empty_scan(),
        DomView::Other(c) => item_scan(c, chain.push(li), ids.skip(1)),
    };
    item_block(li, numbered, chain, ids, st)
}

/// The type that a list item gets: its `data-type`, or the kind of its list.
pub open spec fn item_type(li: DomView, numbered: bool) -> Seq<char> {
    match attr_of(li, "data-type"@) {
        Some(t) => t,
        None => if numbered {
            "numberedListItem"@
        } else {
            "bulletListItem"@
        },
    }
}

/// The inline text of a list item read before its children are sorted:
/// that of its content wrapper if it has one, else its own.
pub open spec fn item_first_content(li: DomView, chain: Seq<DomView>) -> Seq<InlineView> {
    match select_first(Sel::ContentDiv, li, chain) {
        Some(d) => node_inline(d.0, d.1),
        None => node_inline(li, chain),
    }
}

/// The content of a list item from what reading its children gathered:
/// the inline text of the content nodes when there are any and it is not
/// empty, else the loose text trimmed when there is no content node and
/// it is not only white space, else the inline text read first.
pub open spec fn item_content(li: DomView, chain: Seq<DomView>, st: ItemScan) -> Seq<InlineView> {
    if st.content.len() > 0 || st.text_node {
        if nodes_inline(st.content).len() > 0 {
            nodes_inline(st.content)
        } else {
            item_first_content(li, chain)
        }
    } else if !all_ws(st.text) {
        seq![InlineView { text: trim(st.text), styles: Seq::empty() }]
    } else {
        item_first_content(li, chain)
    }
}

pub open spec fn item_block(li: DomView, numbered: bool, chain: Seq<DomView>, ids: Seq<Seq<char>>, st: ItemScan) -> BlockView {
    BlockView {
        id: ids[0],
        block_type: item_type(li, numbered),
        content: ContentView::Inline(item_content(li, chain, st)),
        props: block_props_of(li),
        children: st.nested,
    }
}

/// What reading the children `c` of a list item gathers; `ichain` is the
/// ancestors of the children (the item last).
pub open spec fn item_scan(c: Seq<DomView>, ichain: Seq<DomView>, ids: Seq<Seq<char>>) -> ItemScan
    decreases c,
{
    if c.len() == 0 {
        empty_scan()
    } else {
        let k = scan_count(c.drop_last());
        scan_step(item_scan(c.drop_last(), ichain, ids.take(k as int)), c.last(), ichain, ids.skip(k as int))
    }
}

/// Loose text before a nested list becomes a text node of content if it is
/// not only white space.
pub open spec fn flush_text(st: ItemScan) -> ItemScan {
    if !all_ws(st.text) {
        ItemScan { content: st.content, text_node: true, nested: st.nested, text: Seq::empty() }
    } else {
        st
    }
}

/// Reading one child `x` of a list item: a nested list adds its items of a
/// list type; a content wrapper adds its children as content; a block
/// group adds the list items of the lists in it; another element is
/// content; text is gathered as loose text.
pub open spec fn scan_step(st: ItemScan, x: DomView, ichain: Seq<DomView>, ids: Seq<Seq<char>>) -> ItemScan
    decreases x,
{
    match x {
        DomView::Element { children, .. } => if is_list_node(x) {
            let f = flush_text(st);
            ItemScan {
                content: f.content,
                text_node: f.text_node,
                nested: f.nested + keep_list_items(
                    list_items(children, lname(x) == Some("ol"@), ichain.push(x), ids),
                ),
                text: f.text,
            }
        } else if is_div(x) {
            if is_content_div(x) {
                ItemScan {
                    content: st.content + nonws_nodes(children, ichain.push(x)),
                    text_node: st.text_node,
                    nested: st.nested,
                    text: st.text,
                }
            } else if is_group_div(x) {
                ItemScan {
                    content: st.content,
                    text_node: st.text_node,
                    nested: st.nested + group_items(children, ichain.push(x), ids),
                    text: st.text,
                }
            } else {
                st
            }
        } else {
            ItemScan {
                content: st.content.push((x, ichain)),
                text_node: st.text_node,
                nested: st.nested,
                text: st.text,
            }
        },
        DomView::Text(t) => ItemScan {
            content: st.content,
            text_node: st.text_node,
            nested: st.nested,
            text: st.text + t,
        },
        DomView::Other(_) => st,
    }
}

/// The nodes among `s` that are not white-space text, each with the
/// ancestors `chain`.
pub open spec fn nonws_nodes(s: Seq<DomView>, chain: Seq<DomView>) -> Seq<(DomView, Seq<DomView>)>
    decreases s.len(),
{
    if s.len() == 0 {
        Seq::empty()
    } else {
        nonws_nodes(s.drop_last(), chain) + if is_ws_node(s.last()) {
            Seq::empty()
        } else {
            seq![(s.last(), chain)]
        }
    }
}

/// The blocks whose type ends with `ListItem`, in order.
pub open spec fn keep_list_items(s: Seq<BlockView>) -> Seq<BlockView>
    decreases s.len(),
{
    if s.len() == 0 {
        Seq::empty()
    } else {
        (if seq_ends_with(s[0].block_type, "ListItem"@) {
            seq![s[0]]
        } else {
            Seq::empty()
        }) + keep_list_items(s.skip(1))
    }
}

/// The blocks read from the `li` children among `s`, in order.
pub open spec fn list_items(s: Seq<DomView>, ordered: bool, chain: Seq<DomView>, ids: Seq<Seq<char>>) -> Seq<BlockView>
    decreases s,
{
    if s.len() == 0 {
        Seq::empty()
    } else {
        let k = items_count(s.drop_last());
        list_items(s.drop_last(), ordered, chain, ids.take(k as int)) + if is_li(s.last()) {
            seq![list_item_view(s.last(), ordered, chain, ids.skip(k as int))]
        } else {
            Seq::empty()
        }
    }
}

/// The list items of a list type read from the lists among `s` (the
/// children of a block group).
pub open spec fn group_items(s: Seq<DomView>, chain: Seq<DomView>, ids: Seq<Seq<char>>) -> Seq<BlockView>
    decreases s,
{
    if s.len() == 0 {
        Seq::empty()
    } else {
        let k = group_count(s.drop_last());
        group_items(s.drop_last(), chain, ids.take(k as int)) + match s.last() {
            DomView::Element { children, .. } => if is_list_node(s.last()) {
                keep_list_items(
                    list_items(children, lname(s.last()) == Some("ol"@), chain.push(s.last()), ids.skip(k as int)),
                )
            } else {
                Seq::empty()
            },
            _ => Seq::empty(),
        }
    }
}

pub open spec fn issued_since(g: Seq<Seq<char>>, start: Seq<Seq<char>>) -> Seq<Seq<char>> {
    g.skip(start.len() as int)
}

/// `g` extends `start` by `k` ids.
pub open spec fn grew_by(g: Seq<Seq<char>>, start: Seq<Seq<char>>, k: nat) -> bool {
    g.len() == start.len() + k && g.take(start.len() as int) == start
}

pub proof fn lemma_grew_trans(a: Seq<Seq<char>>, b: Seq<Seq<char>>, c: Seq<Seq<char>>, k1: nat, k2: nat)
    requires
        grew_by(b, a, k1),
        grew_by(c, b, k2),
    ensures
        grew_by(c, a, k1 + k2),
        issued_since(c, a).take(k1 as int) == issued_since(b, a),
        issued_since(c, a).skip(k1 as int) == issued_since(c, b),
{
    assert(c.take(a.len() as int) =~= b.take(a.len() as int));
    assert(issued_since(c, a).take(k1 as int) =~= issued_since(b, a));
    assert(issued_since(c, a).skip(k1 as int) =~= issued_since(c, b));
}

pub proof fn lemma_grew_zero(a: Seq<Seq<char>>)
    ensures
        grew_by(a, a, 0),
        issued_since(a, a) == Seq::<Seq<char>>::empty(),
{
    assert(a.take(a.len() as int) =~= a);
    assert(issued_since(a, a) =~= Seq::<Seq<char>>::empty());
}

/// Moves the blocks whose type ends with `ListItem` to the end of `out`.
pub fn keep_list_items_into(items: Vec<Block>, out: &mut Vec<Block>)
    ensures
        blocks_view(final(out)@) == blocks_view(old(out)@) + keep_list_items(blocks_view(items@)),
{
    let ghost all = blocks_view(items@);
    let ghost start = blocks_view(out@);
    let mut items = items;
    let ghost mut i: int = 0;
    assert(all.skip(0) =~= all);
    assert(start + Seq::<BlockView>::empty() =~= start);
    while items.len() > 0
        invariant
            0 <= i <= all.len(),
            blocks_view(items@) == all.skip(i),
            start + keep_list_items(all) == blocks_view(out@) + keep_list_items(all.skip(i)),
        decreases items@.len(),
    {
        let ghost before = items@;
        let b = items.remove(0);
        proof {
            assert(before =~= seq![b] + items@);
            assert(blocks_view(items@) =~= blocks_view(before).skip(1));
            assert(all.skip(i).skip(1) =~= all.skip(i + 1));
            assert(all.skip(i)[0] == block_view(b));
        }
        let ghost ob = out@;
        if ends_with(b.block_type.as_str(), "ListItem") {
            out.push(b);
            proof {
                lemma_blocks_view_push(ob, b);
                assert(blocks_view(ob) + keep_list_items(all.skip(i)) =~= blocks_view(out@)
                    + keep_list_items(all.skip(i + 1)));
            }
        } else {
            proof {
                assert(keep_list_items(all.skip(i)) =~= keep_list_items(all.skip(i + 1)));
            }
        }
        proof {
            i = i + 1;
        }
    }
    assert(all.skip(i) =~= Seq::<BlockView>::empty());
    assert(blocks_view(out@) + Seq::<BlockView>::empty() =~= blocks_view(out@));
}

fn is_li_exec(n: &DomNode) -> (r: bool)
    ensures
        r == is_li(n@),
{
    lname_is(n, "li")
}

fn is_list_exec(n: &DomNode) -> (r: bool)
    ensures
        r == is_list_node(n@),
{
    lname_is(n, "ul") || lname_is(n, "ol")
}

/// The blocks read from the `li` children among `s` (the children of a
/// list `parent`), each with the ancestors `chain`.
pub(crate) fn list_items_exec<'a>(
    parent: &'a DomNode,
    s: &'a Vec<DomNode>,
    ordered: bool,
    chain: &Vec<&'a DomNode>,
    gen: &mut IdGen,
) -> (r: Vec<Block>)
    requires
        forall|i: int| 0 <= i < s@.len() ==> decreases_to!(*parent => s@[i]),
    ensures
        grew_by(final(gen).issued(), old(gen).issued(), items_count(doms_view(s@))),
        blocks_view(r@) == list_items(
            doms_view(s@),
            ordered,
            chain_view(chain@),
            issued_since(final(gen).issued(), old(gen).issued()),
        ),
    decreases *parent, 1nat,
{
    let ghost g0 = gen.issued();
    let ghost sv = doms_view(s@);
    let ghost cv = chain_view(chain@);
    let mut out: Vec<Block> = Vec::new();
    let k = s.len();
    let mut i: usize = 0;
    proof {
        lemma_grew_zero(g0);
        lemma_blocks_view_empty();
        assert(sv.take(0) =~= Seq::<DomView>::empty());
    }
    while i < k
        invariant
            k == s@.len(),
            i <= k,
            sv == doms_view(s@),
            cv == chain_view(chain@),
            forall|j: int| 0 <= j < s@.len() ==> decreases_to!(*parent => s@[j]),
            grew_by(gen.issued(), g0, items_count(sv.take(i as int))),
            blocks_view(out@) == list_items(sv.take(i as int), ordered, cv, issued_since(gen.issued(), g0)),
        decreases k - i,
    {
        let ghost g1 = gen.issued();
        let ghost before = out@;
        proof {
            assert(sv.take(i + 1).drop_last() =~= sv.take(i as int));
            assert(sv.take(i + 1).last() == dom_view(s@[i as int]));
        }
        if is_li_exec(&s[i]) {
            let b = parse_list_item(&s[i], ordered, chain, gen);
            out.push(b);
            proof {
                let c1 = items_count(sv.take(i as int));
                lemma_grew_trans(g0, g1, gen.issued(), c1, item_count(sv[i as int]));
                lemma_blocks_view_push(before, b);
            }
        } else {
            proof {
                let c1 = items_count(sv.take(i as int));
                lemma_grew_zero(g1);
                lemma_grew_trans(g0, g1, gen.issued(), c1, 0);
                assert(blocks_view(out@) =~= blocks_view(before) + Seq::<BlockView>::empty());
            }
        }
        i = i + 1;
    }
    assert(sv.take(k as int) =~= sv);
    out
}

/// The list items of a list type read from the lists among `s` (the
/// children of a block group `parent`).
fn group_items_exec<'a>(
    parent: &'a DomNode,
    s: &'a Vec<DomNode>,
    chain: &Vec<&'a DomNode>,
    gen: &mut IdGen,
) -> (r: Vec<Block>)
    requires
        forall|i: int| 0 <= i < s@.len() ==> decreases_to!(*parent => s@[i]),
    ensures
        grew_by(final(gen).issued(), old(gen).issued(), group_count(doms_view(s@))),
        blocks_view(r@) == group_items(
            doms_view(s@),
            chain_view(chain@),
            issued_since(final(gen).issued(), old(gen).issued()),
        ),
    decreases *parent, 1nat,
{
    let ghost g0 = gen.issued();
    let ghost sv = doms_view(s@);
    let ghost cv = chain_view(chain@);
    let mut out: Vec<Block> = Vec::new();
    let k = s.len();
    let mut i: usize = 0;
    proof {
        lemma_grew_zero(g0);
        lemma_blocks_view_empty();
        assert(sv.take(0) =~= Seq::<DomView>::empty());
    }
    while i < k
        invariant
            k == s@.len(),
            i <= k,
            sv == doms_view(s@),
            cv == chain_view(chain@),
            forall|j: int| 0 <= j < s@.len() ==> decreases_to!(*parent => s@[j]),
            grew_by(gen.issued(), g0, group_count(sv.take(i as int))),
            blocks_view(out@) == group_items(sv.take(i as int), cv, issued_since(gen.issued(), g0)),
        decreases k - i,
    {
        let ghost g1 = gen.issued();
        let ghost before = out@;
        proof {
            assert(sv.take(i + 1).drop_last() =~= sv.take(i as int));
            assert(sv.take(i + 1).last() == dom_view(s@[i as int]));
        }
        let x = &s[i];
        let mut handled = false;
        if is_list_exec(x) {
            match node_children(x) {
                Some(xk) => {
                    let ordered = lname_is(x, "ol");
                    let xchain = child_chain(chain, x);
                    proof {
                        assert forall|j: int| 0 <= j < xk@.len() implies decreases_to!(*parent => xk@[j]) by {
                            assert(decreases_to!(*parent => *x));
                        }
                    }
                    let items = list_items_exec(x, xk, ordered, &xchain, gen);
                    keep_list_items_into(items, &mut out);
                    proof {
                        let c1 = group_count(sv.take(i as int));
                        lemma_grew_trans(g0, g1, gen.issued(), c1, items_count(doms_view(xk@)));
                    }
                    handled = true;
                },
                None => {},
            }
        }
        if !handled {
            proof {
                let c1 = group_count(sv.take(i as int));
                lemma_grew_zero(g1);
                lemma_grew_trans(g0, g1, gen.issued(), c1, 0);
                assert(blocks_view(out@) =~= blocks_view(before) + Seq::<BlockView>::empty());
            }
        }
        i = i + 1;
    }
    assert(sv.take(k as int) =~= sv);
    out
}

/// What has been gathered so far from the children of a list item.
pub struct ScanState<'a> {
    pub content: Vec<ContentNode<'a>>,
    pub text_node: bool,
    pub nested: Vec<Block>,
    pub text: String,
}

pub open spec fn scan_view(st: ScanState) -> ItemScan {
    ItemScan {
        content: st.content@.map_values(|c: ContentNode| content_node_view(c)),
        text_node: st.text_node,
        nested: blocks_view(st.nested@),
        text: st.text@,
    }
}

fn push_content<'a>(st: &mut ScanState<'a>, node: &'a DomNode, chain: &Vec<&'a DomNode>)
    ensures
        scan_view(*final(st)) == (ItemScan {
            content: scan_view(*old(st)).content.push((node@, chain_view(chain@))),
            text_node: old(st).text_node,
            nested: scan_view(*old(st)).nested,
            text: old(st).text@,
        }),
        final(st).nested@ == old(st).nested@,
        final(st).text@ == old(st).text@,
        final(st).text_node == old(st).text_node,
{
    let ghost c0 = st.content@;
    let cc = copy_chain(chain);
    let n = ContentNode { node, chain: cc };
    st.content.push(n);
    assert(st.content@.map_values(|c: ContentNode| content_node_view(c)) =~= c0.map_values(
        |c: ContentNode| content_node_view(c),
    ).push(content_node_view(n)));
}

/// Reads one child `x` of a list item `li` (see `scan_step`).
fn scan_child<'a>(
    li: &'a DomNode,
    x: &'a DomNode,
    ichain: &Vec<&'a DomNode>,
    st: &mut ScanState<'a>,
    gen: &mut IdGen,
)
    requires
        decreases_to!(*li => *x),
    ensures
        grew_by(final(gen).issued(), old(gen).issued(), child_count(x@)),
        scan_view(*final(st)) == scan_step(
            scan_view(*old(st)),
            x@,
            chain_view(ichain@),
            issued_since(final(gen).issued(), old(gen).issued()),
        ),
    decreases *li, 1nat,
{
    let ghost g0 = gen.issued();
    proof {
        lemma_grew_zero(g0);
    }
    match x {
        DomNode::Element(_) => {
            if is_list_exec(x) {
                if !is_blank(st.text.as_str()) {
                    st.text_node = true;
                    st.text = String::new();
                }
                match node_children(x) {
                    Some(xk) => {
                        let ordered = lname_is(x, "ol");
                        let xchain = child_chain(ichain, x);
                        let items = list_items_exec(x, xk, ordered, &xchain, gen);
                        keep_list_items_into(items, &mut st.nested);
                    },
                    None => {},
                }
            } else if lname_is(x, "div") {
                let is_content = match attr(x, "data-content") {
                    Some(v) => crate::text::str_equal(v.as_str(), "true"),
                    None => false,
                };
                let is_group = match attr(x, "data-node-type") {
                    Some(v) => crate::text::str_equal(v.as_str(), "blockGroup"),
                    None => false,
                };
                if is_content {
                    match node_children(x) {
                        Some(xk) => {
                            let xchain = child_chain(ichain, x);
                            let ghost xkv = doms_view(xk@);
                            let ghost c0 = scan_view(*st).content;
                            let m = xk.len();
                            let mut j: usize = 0;
                            assert(xkv.take(0) =~= Seq::<DomView>::empty());
                            assert(c0 + Seq::<(DomView, Seq<DomView>)>::empty() =~= c0);
                            while j < m
                                invariant
                                    m == xk@.len(),
                                    j <= m,
                                    xkv == doms_view(xk@),
                                    st.text_node == old(st).text_node,
                                    st.text@ == old(st).text@,
                                    st.nested@ == old(st).nested@,
                                    c0 == scan_view(*old(st)).content,
                                    scan_view(*st).content == c0 + nonws_nodes(
                                        xkv.take(j as int),
                                        chain_view(xchain@),
                                    ),
                                decreases m - j,
                            {
                                proof {
                                    assert(xkv.take(j + 1).drop_last() =~= xkv.take(j as int));
                                    assert(xkv.take(j + 1).last() == dom_view(xk@[j as int]));
                                }
                                if !is_whitespace_node(&xk[j]) {
                                    push_content(st, &xk[j], &xchain);
                                }
                                j = j + 1;
                            }
                            assert(xkv.take(m as int) =~= xkv);
                        },
                        None => {},
                    }
                } else if is_group {
                    match node_children(x) {
                        Some(xk) => {
                            let xchain = child_chain(ichain, x);
                            let ghost nb0 = st.nested@;
                            let mut items = group_items_exec(x, xk, &xchain, gen);
                            let ghost items_seq = items@;
                            st.nested.append(&mut items);
                            proof {
                                crate::blocks::lemma_blocks_view_add(nb0, items_seq);
                            }
                        },
                        None => {},
                    }
                }
            } else {
                push_content(st, x, ichain);
            }
        },
        DomNode::Text(t) => {
            st.text.append(t.as_str());
        },
        DomNode::Other(_) => {},
    }
}

/// The block read from a list item whose ancestors are `chain`: its id
/// comes first from `gen`, then those of the nested items it reads.
pub fn parse_list_item<'a>(li: &'a DomNode, numbered: bool, chain: &Vec<&'a DomNode>, gen: &mut IdGen) -> (b: Block)
    ensures
        grew_by(final(gen).issued(), old(gen).issued(), item_count(li@)),
        block_view(b) == list_item_view(
            li@,
            numbered,
            chain_view(chain@),
            issued_since(final(gen).issued(), old(gen).issued()),
        ),
    decreases *li, 2nat,
{
    let ghost g0 = gen.issued();
    let ghost cv = chain_view(chain@);
    let id = generate_id(gen);
    let ghost g1 = gen.issued();
    assert(g1.take(g0.len() as int) =~= g0);
    let props = parse_block_props(li);
    let content0 = match select_first_exec(&Sel::ContentDiv, li, chain) {
        Some(l) => parse_single_node_content(l.node, &l.chain),
        None => parse_single_node_content(li, chain),
    };
    let block_type = match attr(li, "data-type") {
        Some(t) => t.clone(),
        None => if numbered {
            to_owned("numberedListItem")
        } else {
            to_owned("bulletListItem")
        },
    };
    let ichain = child_chain(chain, li);
    let ghost icv = chain_view(ichain@);
    let mut st = ScanState { content: Vec::new(), text_node: false, nested: Vec::new(), text: String::new() };
    let ghost kv: Seq<DomView> = match li@ {
        DomView::Element { children, .. } => children,
        DomView::Text(_) => Seq::empty(),
        DomView::Other(c) => c,
    };
    proof {
        lemma_grew_zero(g1);
        lemma_blocks_view_empty();
        assert(st.content@.map_values(|c: ContentNode| content_node_view(c)) =~= Seq::<(DomView, Seq<DomView>)>::empty());
        assert(st.text@ =~= Seq::<char>::empty());
        assert(scan_view(st) == empty_scan());
    }
    match node_children(li) {
        Some(kids) => {
            let k = kids.len();
            let mut i: usize = 0;
            assert(doms_view(kids@).take(0) =~= Seq::<DomView>::empty());
            while i < k
                invariant
                    k == kids@.len(),
                    i <= k,
                    kv == doms_view(kids@),
                    icv == chain_view(ichain@),
                    forall|j: int| 0 <= j < kids@.len() ==> decreases_to!(*li => kids@[j]),
                    grew_by(gen.issued(), g1, scan_count(kv.take(i as int))),
                    scan_view(st) == item_scan(kv.take(i as int), icv, issued_since(gen.issued(), g1)),
                decreases k - i,
            {
                let ghost g2 = gen.issued();
                proof {
                    assert(kv.take(i + 1).drop_last() =~= kv.take(i as int));
                    assert(kv.take(i + 1).last() == dom_view(kids@[i as int]));
                }
                scan_child(li, &kids[i], &ichain, &mut st, gen);
                proof {
                    lemma_grew_trans(g1, g2, gen.issued(), scan_count(kv.take(i as int)), child_count(kv[i as int]));
                }
                i = i + 1;
            }
            assert(kv.take(k as int) =~= kv);
        },
        None => {
            assert(kv =~= Seq::<DomView>::empty());
        },
    }
    let final_content = if st.content.len() > 0 || st.text_node {
        let p = parse_inline_content(&st.content);
        if p.len() > 0 {
            p
        } else {
            content0
        }
    } else if !is_blank(st.text.as_str()) {
        let mut v: Vec<InlineContent> = Vec::new();
        let piece = InlineContent { text: to_owned(trim_str(st.text.as_str())), styles: StringMap::new() };
        v.push(piece);
        assert(inlines_view(v@) =~= seq![piece@]);
        v
    } else {
        content0
    };
    proof {
        lemma_grew_trans(g0, g1, gen.issued(), 1, scan_count(kv));
        assert(issued_since(g1, g0) =~= seq![id@]);
    }
    let ghost ids = issued_since(gen.issued(), g0);
    let ghost stv = scan_view(st);
    assert(ids.take(1) == seq![id@]);
    assert(ids.take(1)[0] == ids[0]);
    assert(ids[0] == id@);
    assert(stv == item_scan(kv, icv, ids.skip(1)));
    assert(inlines_view(final_content@) == item_content(li@, cv, stv));
    let b = Block { id, block_type, content: BlockContent::Inline(final_content), props, children: st.nested };
    assert(block_view(b) == item_block(li@, numbered, cv, ids, stv));
    b
}

/// All blocks of `s` are of a list item type.
pub open spec fn all_list_items(s: Seq<BlockView>) -> bool {
    forall|i: int| 0 <= i < s.len() ==> seq_ends_with(#[trigger] s[i].block_type, "ListItem"@)
}

proof fn lemma_all_list_items_add(a: Seq<BlockView>, b: Seq<BlockView>)
    requires
        all_list_items(a),
        all_list_items(b),
    ensures
        all_list_items(a + b),
{
    assert forall|i: int| 0 <= i < (a + b).len() implies seq_ends_with(#[trigger] (a + b)[i].block_type, "ListItem"@) by {
        if i < a.len() {
            assert((a + b)[i] == a[i]);
        } else {
            assert((a + b)[i] == b[i - a.len()]);
        }
    }
}

proof fn lemma_keep_list_items(s: Seq<BlockView>)
    ensures
        all_list_items(keep_list_items(s)),
    decreases s.len(),
{
    if s.len() > 0 {
        lemma_keep_list_items(s.skip(1));
        let head = if seq_ends_with(s[0].block_type, "ListItem"@) {
            seq![s[0]]
        } else {
            Seq::<BlockView>::empty()
        };
        assert(all_list_items(head));
        lemma_all_list_items_add(head, keep_list_items(s.skip(1)));
    } else {
        assert(all_list_items(keep_list_items(s)));
    }
}

proof fn lemma_group_items_all(s: Seq<DomView>, chain: Seq<DomView>, ids: Seq<Seq<char>>)
    ensures
        all_list_items(group_items(s, chain, ids)),
    decreases s.len(),
{
    if s.len() > 0 {
        let k = group_count(s.drop_last());
        lemma_group_items_all(s.drop_last(), chain, ids.take(k as int));
        let last = match s.last() {
            DomView::Element { children, .. } => if is_list_node(s.last()) {
                keep_list_items(
                    list_items(children, lname(s.last()) == Some("ol"@), chain.push(s.last()), ids.skip(k as int)),
                )
            } else {
                Seq::empty()
            },
            _ => Seq::empty(),
        };
        match s.last() {
            DomView::Element { children, .. } => if is_list_node(s.last()) {
                lemma_keep_list_items(
                    list_items(children, lname(s.last()) == Some("ol"@), chain.push(s.last()), ids.skip(k as int)),
                );
            },
            _ => {},
        }
        assert(all_list_items(last));
        lemma_all_list_items_add(group_items(s.drop_last(), chain, ids.take(k as int)), last);
    } else {
        assert(all_list_items(group_items(s, chain, ids)));
    }
}

proof fn lemma_scan_items(c: Seq<DomView>, ichain: Seq<DomView>, ids: Seq<Seq<char>>)
    ensures
        all_list_items(item_scan(c, ichain, ids).nested),
    decreases c.len(),
{
    if c.len() > 0 {
        let k = scan_count(c.drop_last());
        let st = item_scan(c.drop_last(), ichain, ids.take(k as int));
        lemma_scan_items(c.drop_last(), ichain, ids.take(k as int));
        let x = c.last();
        let ids2 = ids.skip(k as int);
        assert(item_scan(c, ichain, ids) == scan_step(st, x, ichain, ids2));
        assert(flush_text(st).nested == st.nested);
        match x {
            DomView::Element { children, .. } => {
                if is_list_node(x) {
                    let items = list_items(children, lname(x) == Some("ol"@), ichain.push(x), ids2);
                    lemma_keep_list_items(items);
                    lemma_all_list_items_add(flush_text(st).nested, keep_list_items(items));
                    assert(scan_step(st, x, ichain, ids2).nested == flush_text(st).nested + keep_list_items(items));
                } else if is_div(x) && !is_content_div(x) && is_group_div(x) {
                    lemma_group_items_all(children, ichain.push(x), ids2);
                    lemma_all_list_items_add(st.nested, group_items(children, ichain.push(x), ids2));
                    assert(scan_step(st, x, ichain, ids2).nested == st.nested + group_items(children, ichain.push(x), ids2));
                } else {
                    assert(scan_step(st, x, ichain, ids2).nested == st.nested);
                }
            },
            _ => {
                assert(scan_step(st, x, ichain, ids2).nested == st.nested);
            },
        }
    } else {
        assert(all_list_items(empty_scan().nested));
    }
}

/// The children of a list item read from HTML are all list items: the
/// items of its nested lists, and of the lists in its block groups, whose
/// type ends with `ListItem`.
pub proof fn lemma_item_children_are_list_items(li: DomView, numbered: bool, chain: Seq<DomView>, ids: Seq<Seq<char>>)
    ensures
        all_list_items(list_item_view(li, numbered, chain, ids).children),
{
    match li {
        DomView::Element { children, .. } => lemma_scan_items(children, chain.push(li), ids.skip(1)),
        DomView::Text(_) => assert(all_list_items(empty_scan().nested)),
        DomView::Other(c) => lemma_scan_items(c, chain.push(li), ids.skip(1)),
    }
}

/// Every block of `s` has an id that `ids` holds.
pub open spec fn ids_within(s: Seq<BlockView>, ids: Seq<Seq<char>>) -> bool {
    forall|i: int| 0 <= i < s.len() ==> ids.contains(#[trigger] s[i].id)
}

proof fn lemma_within_add(a: Seq<BlockView>, b: Seq<BlockView>, ids: Seq<Seq<char>>)
    requires
        ids_within(a, ids),
        ids_within(b, ids),
    ensures
        ids_within(a + b, ids),
{
    assert forall|i: int| 0 <= i < (a + b).len() implies ids.contains(#[trigger] (a + b)[i].id) by {
        if i < a.len() {
            assert((a + b)[i] == a[i]);
        } else {
            assert((a + b)[i] == b[i - a.len()]);
        }
    }
}

proof fn lemma_within_take(s: Seq<BlockView>, ids: Seq<Seq<char>>, k: int)
    requires
        0 <= k <= ids.len(),
        ids_within(s, ids.take(k)),
    ensures
        ids_within(s, ids),
{
    assert forall|i: int| 0 <= i < s.len() implies ids.contains(#[trigger] s[i].id) by {
        let q = choose|q: int| 0 <= q < ids.take(k).len() && ids.take(k)[q] == s[i].id;
        assert(ids[q] == s[i].id);
    }
}

proof fn lemma_within_skip(s: Seq<BlockView>, ids: Seq<Seq<char>>, k: int)
    requires
        0 <= k <= ids.len(),
        ids_within(s, ids.skip(k)),
    ensures
        ids_within(s, ids),
{
    assert forall|i: int| 0 <= i < s.len() implies ids.contains(#[trigger] s[i].id) by {
        let q = choose|q: int| 0 <= q < ids.skip(k).len() && ids.skip(k)[q] == s[i].id;
        assert(ids[q + k] == s[i].id);
    }
}

proof fn lemma_keep_within(s: Seq<BlockView>, ids: Seq<Seq<char>>)
    requires
        ids_within(s, ids),
    ensures
        ids_within(keep_list_items(s), ids),
    decreases s.len(),
{
    if s.len() > 0 {
        assert forall|i: int| 0 <= i < s.skip(1).len() implies ids.contains(#[trigger] s.skip(1)[i].id) by {
            assert(s.skip(1)[i] == s[i + 1]);
        }
        lemma_keep_within(s.skip(1), ids);
        let head = if seq_ends_with(s[0].block_type, "ListItem"@) {
            seq![s[0]]
        } else {
            Seq::<BlockView>::empty()
        };
        assert(ids_within(head, ids));
        lemma_within_add(head, keep_list_items(s.skip(1)), ids);
    } else {
        assert(ids_within(keep_list_items(s), ids));
    }
}

/// A list item read with the ids `ids` (as many as it uses) gets the
/// first, and its children get ids from the rest.
pub proof fn lemma_item_ids(li: DomView, numbered: bool, chain: Seq<DomView>, ids: Seq<Seq<char>>)
    requires
        ids.len() == item_count(li),
    ensures
        list_item_view(li, numbered, chain, ids).id == ids[0],
        ids_within(list_item_view(li, numbered, chain, ids).children, ids.skip(1)),
    decreases li,
{
    match li {
        DomView::Element { children, .. } => lemma_scan_ids(children, chain.push(li), ids.skip(1)),
        DomView::Text(_) => assert(ids_within(empty_scan().nested, ids.skip(1))),
        DomView::Other(c) => lemma_scan_ids(c, chain.push(li), ids.skip(1)),
    }
}

proof fn lemma_scan_ids(c: Seq<DomView>, ichain: Seq<DomView>, ids: Seq<Seq<char>>)
    requires
        ids.len() == scan_count(c),
    ensures
        ids_within(item_scan(c, ichain, ids).nested, ids),
    decreases c,
{
    if c.len() > 0 {
        let k = scan_count(c.drop_last());
        let st = item_scan(c.drop_last(), ichain, ids.take(k as int));
        lemma_scan_ids(c.drop_last(), ichain, ids.take(k as int));
        lemma_within_take(st.nested, ids, k as int);
        let x = c.last();
        let ids2 = ids.skip(k as int);
        assert(scan_count(c) == k + child_count(x));
        assert(ids2.len() == child_count(x));
        assert(item_scan(c, ichain, ids) == scan_step(st, x, ichain, ids2));
        assert(flush_text(st).nested == st.nested);
        match x {
            DomView::Element { children, .. } => {
                if is_list_node(x) {
                    assert(child_count(x) == items_count(children));
                    let items = list_items(children, lname(x) == Some("ol"@), ichain.push(x), ids2);
                    lemma_list_ids(children, lname(x) == Some("ol"@), ichain.push(x), ids2);
                    lemma_keep_within(items, ids2);
                    lemma_within_skip(keep_list_items(items), ids, k as int);
                    lemma_within_add(st.nested, keep_list_items(items), ids);
                    assert(scan_step(st, x, ichain, ids2).nested == flush_text(st).nested + keep_list_items(items));
                } else if is_div(x) && !is_content_div(x) && is_group_div(x) {
                    assert(child_count(x) == group_count(children));
                    lemma_group_ids(children, ichain.push(x), ids2);
                    lemma_within_skip(group_items(children, ichain.push(x), ids2), ids, k as int);
                    lemma_within_add(st.nested, group_items(children, ichain.push(x), ids2), ids);
                    assert(scan_step(st, x, ichain, ids2).nested == st.nested + group_items(children, ichain.push(x), ids2));
                } else {
                    assert(scan_step(st, x, ichain, ids2).nested == st.nested);
                }
            },
            _ => {
                assert(scan_step(st, x, ichain, ids2).nested == st.nested);
            },
        }
    } else {
        assert(ids_within(empty_scan().nested, ids));
    }
}

/// The items read from a list with the ids `ids` (as many as they use)
/// get ids that `ids` holds.
pub proof fn lemma_list_ids(s: Seq<DomView>, ordered: bool, chain: Seq<DomView>, ids: Seq<Seq<char>>)
    requires
        ids.len() == items_count(s),
    ensures
        ids_within(list_items(s, ordered, chain, ids), ids),
    decreases s,
{
    if s.len() > 0 {
        let k = items_count(s.drop_last());
        lemma_list_ids(s.drop_last(), ordered, chain, ids.take(k as int));
        lemma_within_take(list_items(s.drop_last(), ordered, chain, ids.take(k as int)), ids, k as int);
        if is_li(s.last()) {
            let ids2 = ids.skip(k as int);
            assert(items_count(s) == k + item_count(s.last()));
            assert(item_count(s.last()) >= 1);
            lemma_item_ids(s.last(), ordered, chain, ids2);
            assert(ids2[0] == ids[k as int]);
            let one = seq![list_item_view(s.last(), ordered, chain, ids2)];
            assert(ids.contains(ids[k as int]));
            assert(ids_within(one, ids));
            lemma_within_add(list_items(s.drop_last(), ordered, chain, ids.take(k as int)), one, ids);
        } else {
            assert(list_items(s, ordered, chain, ids) =~= list_items(s.drop_last(), ordered, chain, ids.take(k as int)));
        }
    } else {
        assert(ids_within(list_items(s, ordered, chain, ids), ids));
    }
}

proof fn lemma_group_ids(s: Seq<DomView>, chain: Seq<DomView>, ids: Seq<Seq<char>>)
    requires
        ids.len() == group_count(s),
    ensures
        ids_within(group_items(s, chain, ids), ids),
    decreases s,
{
    if s.len() > 0 {
        let k = group_count(s.drop_last());
        lemma_group_ids(s.drop_last(), chain, ids.take(k as int));
        let prev = group_items(s.drop_last(), chain, ids.take(k as int));
        lemma_within_take(prev, ids, k as int);
        let ids2 = ids.skip(k as int);
        match s.last() {
            DomView::Element { children, .. } => if is_list_node(s.last()) {
                let items = list_items(children, lname(s.last()) == Some("ol"@), chain.push(s.last()), ids2);
                lemma_list_ids(children, lname(s.last()) == Some("ol"@), chain.push(s.last()), ids2);
                lemma_keep_within(items, ids2);
                lemma_within_skip(keep_list_items(items), ids, k as int);
                lemma_within_add(prev, keep_list_items(items), ids);
            } else {
                assert(group_items(s, chain, ids) =~= prev);
            },
            _ => {
                assert(group_items(s, chain, ids) =~= prev);
            },
        }
    } else {
        assert(ids_within(group_items(s, chain, ids), ids));
    }
}

/// The list items that one child of a list item gives: for a `ul` or `ol`,
/// the items read from its `li` children; for a block-group `div` (one
/// that is not a content wrapper), those of the `ul` and `ol` elements in
/// it; each time keeping those of a list item type. Other children give
/// none.
pub open spec fn child_items(x: DomView, ichain: Seq<DomView>, ids: Seq<Seq<char>>) -> Seq<BlockView> {
    match x {
        DomView::Element { children, .. } => if is_list_node(x) {
            keep_list_items(list_items(children, lname(x) == Some("ol"@), ichain.push(x), ids))
        } else if is_div(x) && !is_content_div(x) && is_group_div(x) {
            group_items(children, ichain.push(x), ids)
        } else {
            Seq::empty()
        },
        _ => Seq::empty(),
    }
}

/// The list items that the children `c` of a list item give, child by
/// child in order (see `child_items`).
pub open spec fn nested_items(c: Seq<DomView>, ichain: Seq<DomView>, ids: Seq<Seq<char>>) -> Seq<BlockView>
    decreases c.len(),
{
    if c.len() == 0 {
        Seq::empty()
    } else {
        let k = scan_count(c.drop_last());
        nested_items(c.drop_last(), ichain, ids.take(k as int)) + child_items(c.last(), ichain, ids.skip(k as int))
    }
}

proof fn lemma_scan_nested(c: Seq<DomView>, ichain: Seq<DomView>, ids: Seq<Seq<char>>)
    ensures
        item_scan(c, ichain, ids).nested == nested_items(c, ichain, ids),
    decreases c.len(),
{
    if c.len() > 0 {
        let k = scan_count(c.drop_last());
        let st = item_scan(c.drop_last(), ichain, ids.take(k as int));
        lemma_scan_nested(c.drop_last(), ichain, ids.take(k as int));
        let x = c.last();
        let ids2 = ids.skip(k as int);
        assert(item_scan(c, ichain, ids) == scan_step(st, x, ichain, ids2));
        assert(flush_text(st).nested == st.nested);
        match x {
            DomView::Element { children, .. } => {
                if is_list_node(x) {
                } else if is_div(x) && !is_content_div(x) && is_group_div(x) {
                } else {
                    assert(scan_step(st, x, ichain, ids2).nested == st.nested);
                    assert(child_items(x, ichain, ids2) =~= Seq::<BlockView>::empty());
                }
            },
            _ => {
                assert(scan_step(st, x, ichain, ids2).nested == st.nested);
                assert(child_items(x, ichain, ids2) =~= Seq::<BlockView>::empty());
            },
        }
        assert(scan_step(st, x, ichain, ids2).nested =~= st.nested + child_items(x, ichain, ids2));
    }
}

/// The children of a list item are the list items that its children give,
/// in order: the items of each `ul` or `ol` child, and of each `ul` or `ol`
/// in a block-group `div` child, that are of a list item type (see
/// `nested_items`).
pub proof fn lemma_item_children(li: DomView, numbered: bool, chain: Seq<DomView>, ids: Seq<Seq<char>>)
    ensures
        list_item_view(li, numbered, chain, ids).children == nested_items(
            crate::dom_query::children_of(li),
            chain.push(li),
            ids.skip(1),
        ),
{
    match li {
        DomView::Element { children, .. } => lemma_scan_nested(children, chain.push(li), ids.skip(1)),
        DomView::Text(_) => {},
        DomView::Other(c) => lemma_scan_nested(c, chain.push(li), ids.skip(1)),
    }
}

} // verus!
