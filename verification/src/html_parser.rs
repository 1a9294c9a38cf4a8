use vstd::prelude::*;
use vstd::string::*;

use crate::blocks::{
    block_view, blocks_view, inlines_view, lemma_blocks_view_empty, lemma_blocks_view_push, Block,
    BlockContent, BlockView, ContentView, InlineContent, InlineView, RowView, TableContent,
    TableRow, TableView,
};
use crate::code_lang::{
    code_class_language, code_language, code_language_exec, code_text, code_text_exec,
    class_language_exec,
};
use crate::dom::{dom_view, doms_view, DomNode, DomView};
use crate::dom_query::{
    attr, attr_of, chain_view, child_chain, located_view, lower_name, select, select_all,
    select_first, select_first_exec, Located, Sel,
};
use crate::ids::{generate_id, IdGen};
use crate::inline_parse::{
    block_props_of, lowercase_name, node_inline, parse_block_props, parse_single_node_content,
};
use crate::dom::{build_document, document_of_events};
use crate::dom_query::{
    children_of, has_class, has_class_exec, lemma_child_smaller,
    lemma_select_all_sizes, node_children, node_size,
};
use crate::html_io::{parse_html_events, parsed_html_events};
use crate::ids::is_block_id;
use crate::list_items::{
    grew_by, ids_within, is_group_div, is_li, issued_since, item_count, items_count,
    lemma_item_ids, lemma_list_ids, list_item_view, list_items, list_items_exec,
};
use crate::nested_lists::{process_nested_lists, processed_lists};
use crate::text::{contains, seq_contains};
use crate::string_map::{insert_pair, StringMap};
use crate::text::{decimal, decimal_string, parse_usize, parse_usize_spec, str_equal, to_owned};

verus! {

/// Whether `serde_json` reads `s` as an array whose items are numbers or
/// `null` (a `Vec<Option<f64>>`).
pub uninterp spec fn json_number_list(s: Seq<char>) -> bool;

/// `serde_json::from_str::<Vec<Option<serde_json::Number>>>(s).is_ok()`:
/// whether `s` is JSON text of an array of numbers and `null`s. The
/// contract says only that the answer is that of `serde_json` on `s`.
#[verifier::external_body]
fn is_json_number_list(s: &str) -> (r: bool)
    ensures
        r == json_number_list(s@),
{
    serde_json::from_str::<Vec<Option<serde_json::Number>>>(s).is_ok()
}

/// The six heading names.
pub open spec fn is_heading_name(n: Seq<char>) -> bool {
    n == "h1"@ || n == "h2"@ || n == "h3"@ || n == "h4"@ || n == "h5"@ || n == "h6"@
}

/// The local name of an element as it is written (the empty text for
/// other nodes).
pub open spec fn element_name(n: DomView) -> Seq<char> {
    match n {
        DomView::Element { name, .. } => name,
        _ => Seq::empty(),
    }
}

/// The level of a heading from its name: what follows the first character
/// read as a `u8`, or 1 if it is not one.
pub open spec fn heading_level(name: Seq<char>) -> nat {
    if name.len() == 0 {
        1
    } else {
        match parse_usize_spec(name.skip(1)) {
            Some(v) => if v <= 255 {
                v
            } else {
                1
            },
            None => 1,
        }
    }
}

pub open spec fn first_code(n: DomView, chain: Seq<DomView>) -> Option<(DomView, Seq<DomView>)> {
    select_first(Sel::Tag("code"), n, chain)
}

/// The block read from an element as a text block: its `data-type` or
/// `paragraph` (a heading becomes `heading`, a `pre` with code
/// `codeBlock`, unless `data-type` says otherwise), its properties (a
/// heading's level, the language of the code of a `pre`), and its inline
/// text.
pub open spec fn text_block_view(n: DomView, chain: Seq<DomView>, id: Seq<char>) -> BlockView {
    let t0 = match attr_of(n, "data-type"@) {
        Some(t) => t,
        None => "paragraph"@,
    };
    let p0 = block_props_of(n);
    let ln = lowercase_name(n);
    let heading = is_heading_name(ln);
    let code = if ln == "pre"@ {
        first_code(n, chain)
    } else {
        None
    };
    let block_type = if heading || code is Some {
        if t0 == "paragraph"@ {
            if heading {
                "heading"@
            } else {
                "codeBlock"@
            }
        } else {
            t0
        }
    } else {
        t0
    };
    let props = if heading {
        insert_pair(p0, "level"@, decimal(heading_level(element_name(n))))
    } else {
        match code {
            Some(c) => match attr_of(c.0, "data-language"@) {
                Some(d) => insert_pair(p0, "language"@, d),
                None => match code_class_language(c.0) {
                    Some(l) => insert_pair(p0, "language"@, l),
                    None => p0,
                },
            },
            None => p0,
        }
    };
    BlockView {
        id,
        block_type,
        content: ContentView::Inline(node_inline(n, chain)),
        props,
        children: Seq::empty(),
    }
}

/// The block of a `pre` whose first `code` is `code`: type `codeBlock` (or
/// the code's `data-type`), the language, and the code's text.
pub open spec fn code_block_view(pre: DomView, code: DomView, id: Seq<char>) -> BlockView {
    BlockView {
        id,
        block_type: match attr_of(code, "data-type"@) {
            Some(t) => t,
            None => "codeBlock"@,
        },
        content: ContentView::Inline(seq![InlineView { text: code_text(code), styles: Seq::empty() }]),
        props: seq![("language"@, code_language(pre, code))],
        children: Seq::empty(),
    }
}

/// A table row: the inline text of each `td` under the `tr`.
pub open spec fn table_row_view(tr: (DomView, Seq<DomView>)) -> RowView {
    RowView {
        cells: select_all(Sel::Tag("td"), tr.0, tr.1).map_values(
            |td: (DomView, Seq<DomView>)| node_inline(td.0, td.1),
        ),
    }
}

/// The column widths of a table: its `data-column-widths` when `serde_json`
/// reads it as a list of optional numbers, else an empty list.
pub open spec fn table_widths(n: DomView) -> Seq<char> {
    match attr_of(n, "data-column-widths"@) {
        Some(w) => if json_number_list(w) {
            w
        } else {
            "[]"@
        },
        None => "[]"@,
    }
}

/// A table's content read from a `table` element: the content type given,
/// the column widths (see `table_widths`) and a row for each `tr` under it,
/// in tree order.
pub open spec fn table_content_view(n: DomView, chain: Seq<DomView>, content_type: Seq<char>) -> TableView {
    TableView {
        content_type,
        column_widths: table_widths(n),
        rows: select_all(Sel::Tag("tr"), n, chain).map_values(
            |tr: (DomView, Seq<DomView>)| table_row_view(tr),
        ),
    }
}

/// The block of a `table`: its content of type `default`.
pub open spec fn table_block_view(n: DomView, chain: Seq<DomView>, id: Seq<char>) -> BlockView {
    BlockView {
        id,
        block_type: "table"@,
        content: ContentView::Table(table_content_view(n, chain, "default"@)),
        props: block_props_of(n),
        children: Seq::empty(),
    }
}

/// The block of a `p` (a paragraph) or of a heading `h1`..`h6` (a heading
/// whose `level` is the digit of its name).
pub open spec fn paragraph_view(n: DomView, chain: Seq<DomView>, id: Seq<char>) -> BlockView {
    let ln = lowercase_name(n);
    BlockView {
        id,
        block_type: if ln == "p"@ {
            "paragraph"@
        } else {
            "heading"@
        },
        content: ContentView::Inline(node_inline(n, chain)),
        props: if ln == "p"@ {
            Seq::empty()
        } else {
            seq![("level"@, ln.skip(1))]
        },
        children: Seq::empty(),
    }
}

/// The content of a block container whose `.bn-block` element is `b`:
/// none when no child of `b` is a `.bn-block-content` element; else, for
/// the first such child, a table when that element
/// holds a `table` (of the table's `data-type`, else `default`); else the
/// element's inline text.
pub open spec fn container_content(b: (DomView, Seq<DomView>)) -> ContentView {
    let cch = b.1.push(b.0);
    match content_child(children_of(b.0)) {
        Some(c) => match select_first(Sel::Tag("table"), c, cch) {
            Some(t) => ContentView::Table(
                table_content_view(
                    t.0,
                    t.1,
                    match attr_of(t.0, "data-type"@) {
                        Some(v) => v,
                        None => "default"@,
                    },
                ),
            ),
            None => ContentView::Inline(node_inline(c, cch)),
        },
        None => ContentView::Empty,
    }
}

/// The first of `s` of the class `bn-block-content`, if any.
pub open spec fn content_child(s: Seq<DomView>) -> Option<DomView>
    decreases s.len(),
{
    if s.len() == 0 {
        None
    } else if has_class(s[0], "bn-block-content"@) {
        Some(s[0])
    } else {
        content_child(s.skip(1))
    }
}

/// The block of a BlockNote block container whose `.bn-block` element is
/// `b`: its `data-type`, its content (see `container_content`), the
/// properties of `b`, and the children given.
pub open spec fn container_view(b: (DomView, Seq<DomView>), id: Seq<char>, children: Seq<BlockView>) -> BlockView {
    BlockView {
        id,
        block_type: attr_of(b.0, "data-type"@)->0,
        content: container_content(b),
        props: block_props_of(b.0),
        children,
    }
}

/// Another item of `items` has a child with the id `id`.
pub open spec fn nested_in(items: Seq<BlockView>, id: Seq<char>) -> bool {
    exists|j: int, c: int|
        #![trigger items[j].children[c]]
        0 <= j < items.len() && items[j].id != id && 0 <= c < items[j].children.len()
            && items[j].children[c].id == id
}

/// The items of `s` that no other item of `items` has as a child (by id).
pub open spec fn top_of(items: Seq<BlockView>, s: Seq<BlockView>) -> Seq<BlockView>
    decreases s.len(),
{
    if s.len() == 0 {
        Seq::empty()
    } else {
        top_of(items, s.drop_last()) + if nested_in(items, s.last().id) {
            Seq::empty()
        } else {
            seq![s.last()]
        }
    }
}

/// The items of a list that are not the child of another item.
pub open spec fn top_items(items: Seq<BlockView>) -> Seq<BlockView> {
    top_of(items, items)
}

/// No item of `items` has, as a child, a block with the id of an item.
pub open spec fn no_item_nested(items: Seq<BlockView>) -> bool {
    forall|i: int, j: int, c: int|
        0 <= i < items.len() && 0 <= j < items.len() && 0 <= c < items[j].children.len()
            ==> #[trigger] items[j].children[c].id != #[trigger] items[i].id
}

proof fn lemma_top_of_all(items: Seq<BlockView>, s: Seq<BlockView>)
    requires
        no_item_nested(items),
        forall|k: int| 0 <= k < s.len() ==> items.contains(#[trigger] s[k]),
    ensures
        top_of(items, s) == s,
    decreases s.len(),
{
    if s.len() > 0 {
        assert forall|k: int| 0 <= k < s.drop_last().len() implies items.contains(#[trigger] s.drop_last()[k]) by {
            assert(s.drop_last()[k] == s[k]);
        }
        lemma_top_of_all(items, s.drop_last());
        assert(items.contains(s[s.len() - 1]));
        let i = choose|i: int| 0 <= i < items.len() && items[i] == s.last();
        if nested_in(items, s.last().id) {
            let (j, c) = choose|j: int, c: int|
                #![trigger items[j].children[c]]
                0 <= j < items.len() && items[j].id != s.last().id && 0 <= c < items[j].children.len()
                    && items[j].children[c].id == s.last().id;
            assert(items[j].children[c].id != items[i].id);
        }
        assert(top_of(items, s) =~= s.drop_last().push(s.last()));
    }
}

/// No list item is lost: when no item read from a list has, as a child, a
/// block with the id of one of the items (as when every id drawn is new),
/// the list gives all its items, in order.
pub proof fn lemma_list_keeps_every_item(items: Seq<BlockView>)
    requires
        no_item_nested(items),
    ensures
        top_items(items) == items,
{
    assert forall|k: int| 0 <= k < items.len() implies items.contains(#[trigger] items[k]) by {}
    lemma_top_of_all(items, items);
}

/// No id occurs twice in `ids`.
pub open spec fn ids_distinct(ids: Seq<Seq<char>>) -> bool {
    forall|i: int, j: int| 0 <= i < j < ids.len() ==> ids[i] != ids[j]
}

/// The children of every item of `items` have ids that `ids` holds.
pub open spec fn children_within(items: Seq<BlockView>, ids: Seq<Seq<char>>) -> bool {
    forall|j: int| 0 <= j < items.len() ==> ids_within(#[trigger] items[j].children, ids)
}

/// Items read with new ids: none is nested in another, and the items and
/// their children have ids that `ids` holds.
proof fn lemma_new_ids_no_nesting(s: Seq<DomView>, ordered: bool, chain: Seq<DomView>, ids: Seq<Seq<char>>)
    requires
        ids.len() == items_count(s),
        ids_distinct(ids),
    ensures
        no_item_nested(list_items(s, ordered, chain, ids)),
        ids_within(list_items(s, ordered, chain, ids), ids),
        children_within(list_items(s, ordered, chain, ids), ids),
    decreases s.len(),
{
    lemma_list_ids(s, ordered, chain, ids);
    if s.len() > 0 {
        let k = items_count(s.drop_last());
        let front = ids.take(k as int);
        assert(ids_distinct(front));
        lemma_new_ids_no_nesting(s.drop_last(), ordered, chain, front);
        let prev = list_items(s.drop_last(), ordered, chain, front);
        let items = list_items(s, ordered, chain, ids);
        if is_li(s.last()) {
            let ids2 = ids.skip(k as int);
            assert(items_count(s) == k + item_count(s.last()));
            assert(item_count(s.last()) >= 1);
            lemma_item_ids(s.last(), ordered, chain, ids2);
            let m = list_item_view(s.last(), ordered, chain, ids2);
            assert(items == prev.push(m));
            assert(m.id == ids[k as int]);
            // The children of `m` have ids at places after `k`.
            assert forall|c: int| 0 <= c < m.children.len() implies exists|q: int|
                k < q < ids.len() && ids[q] == #[trigger] m.children[c].id by {
                assert(ids2.skip(1).contains(m.children[c].id));
                let p = choose|p: int| 0 <= p < ids2.skip(1).len() && ids2.skip(1)[p] == m.children[c].id;
                assert(ids[k + 1 + p] == m.children[c].id);
            }
            // The items before `m`, and their children, have ids at places
            // before `k`.
            assert forall|j: int| 0 <= j < prev.len() implies exists|q: int|
                0 <= q < k && ids[q] == (#[trigger] prev[j]).id by {
                assert(front.contains(prev[j].id));
                let p = choose|p: int| 0 <= p < front.len() && front[p] == prev[j].id;
                assert(ids[p] == prev[j].id);
            }
            assert forall|j: int, c: int| 0 <= j < prev.len() && 0 <= c < prev[j].children.len()
                implies exists|q: int| 0 <= q < k && ids[q] == #[trigger] prev[j].children[c].id by {
                assert(ids_within(prev[j].children, front));
                assert(front.contains(prev[j].children[c].id));
                let p = choose|p: int| 0 <= p < front.len() && front[p] == prev[j].children[c].id;
                assert(ids[p] == prev[j].children[c].id);
            }
            assert forall|i: int, j: int, c: int|
                0 <= i < items.len() && 0 <= j < items.len() && 0 <= c < items[j].children.len()
                implies #[trigger] items[j].children[c].id != #[trigger] items[i].id by {
                let n = prev.len() as int;
                if i < n && j < n {
                    assert(items[i] == prev[i]);
                    assert(items[j] == prev[j]);
                } else if j == n {
                    assert(items[j] == m);
                    let q = choose|q: int| k < q < ids.len() && ids[q] == m.children[c].id;
                    if i < n {
                        assert(items[i] == prev[i]);
                        let r = choose|r: int| 0 <= r < k && ids[r] == prev[i].id;
                        assert(ids[r] != ids[q]);
                    } else {
                        assert(items[i] == m);
                        assert(ids[k as int] != ids[q]);
                    }
                } else {
                    assert(items[j] == prev[j]);
                    assert(items[i] == m);
                    let q = choose|q: int| 0 <= q < k && ids[q] == prev[j].children[c].id;
                    assert(ids[q] != ids[k as int]);
                }
            }
            assert forall|j: int| 0 <= j < items.len() implies ids_within(#[trigger] items[j].children, ids) by {
                if j < prev.len() {
                    assert(items[j] == prev[j]);
                    lemma_ids_within_take(prev[j].children, ids, k as int);
                } else {
                    assert(items[j] == m);
                    lemma_ids_within_skip(m.children, ids2, 1);
                    lemma_ids_within_skip(m.children, ids, k as int);
                }
            }
        } else {
            assert(items =~= prev);
            assert(front =~= ids);
        }
    }
}

proof fn lemma_ids_within_take(s: Seq<BlockView>, ids: Seq<Seq<char>>, k: int)
    requires
        0 <= k <= ids.len(),
        ids_within(s, ids.take(k)),
    ensures
        ids_within(s, ids),
{
    assert forall|i: int| 0 <= i < s.len() implies ids.contains(#[trigger] s[i].id) by {
        let q = choose|q: int| 0 <= q < ids.take(k).len() && ids.take(k)[q] == s[i].id;
        assert(ids[q] == s[i].id);
    }
}

proof fn lemma_ids_within_skip(s: Seq<BlockView>, ids: Seq<Seq<char>>, k: int)
    requires
        0 <= k <= ids.len(),
        ids_within(s, ids.skip(k)),
    ensures
        ids_within(s, ids),
{
    assert forall|i: int| 0 <= i < s.len() implies ids.contains(#[trigger] s[i].id) by {
        let q = choose|q: int| 0 <= q < ids.skip(k).len() && ids.skip(k)[q] == s[i].id;
        assert(ids[q + k] == s[i].id);
    }
}

/// A list gives every item, in order: when all the ids drawn while it is
/// read are new (none occurs twice), reading a `ul` or `ol` gives the
/// block read from each of its `li` children, none left out as nested in
/// another.
pub proof fn lemma_list_gives_every_item(n: DomView, chain: Seq<DomView>, ids: Seq<Seq<char>>)
    requires
        read_as(n, chain) == ReadAs::List,
        ids.len() == block_count(n, chain),
        ids_distinct(ids),
    ensures
        blocks_of(n, chain, ids) == list_items(children_of(n), lowercase_name(n) == "ol"@, chain.push(n), ids),
{
    match n {
        DomView::Element { children, .. } => {
            lemma_new_ids_no_nesting(children, lowercase_name(n) == "ol"@, chain.push(n), ids);
            lemma_list_keeps_every_item(list_items(children, lowercase_name(n) == "ol"@, chain.push(n), ids));
        },
        _ => {},
    }
}

fn element_name_exec(n: &DomNode) -> (r: String)
    ensures
        r@ == element_name(n@),
{
    match n {
        DomNode::Element(e) => e.name.clone(),
        _ => String::new(),
    }
}

fn lowercase_name_exec(n: &DomNode) -> (r: String)
    ensures
        r@ == lowercase_name(n@),
{
    match lower_name(n) {
        Some(v) => v,
        None => String::new(),
    }
}

pub fn is_heading_name_exec(s: &str) -> (r: bool)
    ensures
        r == is_heading_name(s@),
{
    str_equal(s, "h1") || str_equal(s, "h2") || str_equal(s, "h3") || str_equal(s, "h4")
        || str_equal(s, "h5") || str_equal(s, "h6")
}

pub fn heading_level_exec(name: &str) -> (r: u64)
    ensures
        r as nat == heading_level(name@),
{
    let n = name.unicode_len();
    if n == 0 {
        return 1;
    }
    let rest = name.substring_char(1, n);
    assert(rest@ =~= name@.skip(1));
    match parse_usize(rest) {
        Some(v) => if v <= 255 {
            v as u64
        } else {
            1
        },
        None => 1,
    }
}

fn one_piece(text: String) -> (r: Vec<InlineContent>)
    ensures
        inlines_view(r@) == seq![InlineView { text: text@, styles: Seq::empty() }],
{
    let mut v: Vec<InlineContent> = Vec::new();
    let m = StringMap::new();
    let piece = InlineContent { text, styles: m };
    v.push(piece);
    assert(inlines_view(v@) =~= seq![piece@]);
    v
}

/// Reads an element as a text block (see `text_block_view`).
pub fn parse_text_block<'a>(n: &'a DomNode, chain: &Vec<&'a DomNode>, gen: &mut IdGen) -> (b: Block)
    ensures
        final(gen).issued().len() == old(gen).issued().len() + 1,
        final(gen).issued().drop_last() == old(gen).issued(),
        block_view(b) == text_block_view(n@, chain_view(chain@), final(gen).issued().last()),
{
    let mut block_type = match attr(n, "data-type") {
        Some(t) => t.clone(),
        None => to_owned("paragraph"),
    };
    let mut props = parse_block_props(n);
    let ln = lowercase_name_exec(n);
    let heading = is_heading_name_exec(ln.as_str());
    let code = if str_equal(ln.as_str(), "pre") {
        select_first_exec(&Sel::Tag("code"), n, chain)
    } else {
        None
    };
    if heading || code.is_some() {
        if str_equal(block_type.as_str(), "paragraph") {
            block_type = if heading {
                to_owned("heading")
            } else {
                to_owned("codeBlock")
            };
        }
    }
    if heading {
        let name = element_name_exec(n);
        let level = heading_level_exec(name.as_str());
        props.insert(to_owned("level"), decimal_string(level as u128));
    } else {
        match &code {
            Some(c) => match attr(c.node, "data-language") {
                Some(d) => {
                    props.insert(to_owned("language"), d.clone());
                },
                None => match attr(c.node, "class") {
                    Some(cl) => match class_language_exec(cl.as_str()) {
                        Some(l) => {
                            props.insert(to_owned("language"), l);
                        },
                        None => {},
                    },
                    None => {},
                },
            },
            None => {},
        }
    }
    let content = parse_single_node_content(n, chain);
    let id = generate_id(gen);
    proof {
        assert(gen.issued().drop_last() =~= old(gen).issued());
    }
    proof {
        lemma_blocks_view_empty();
    }
    Block { id, block_type, content: BlockContent::Inline(content), props, children: Vec::new() }
}

/// Reads a `pre` whose first `code` is `code` as a code block (see
/// `code_block_view`).
fn parse_code_block(pre: &DomNode, code: &DomNode, gen: &mut IdGen) -> (b: Block)
    ensures
        final(gen).issued().len() == old(gen).issued().len() + 1,
        final(gen).issued().drop_last() == old(gen).issued(),
        block_view(b) == code_block_view(pre@, code@, final(gen).issued().last()),
{
    let block_type = match attr(code, "data-type") {
        Some(t) => t.clone(),
        None => to_owned("codeBlock"),
    };
    let lang = code_language_exec(pre, code);
    let mut props = StringMap::new();
    props.insert(to_owned("language"), lang);
    let text = code_text_exec(code);
    let content = one_piece(text);
    let id = generate_id(gen);
    proof {
        assert(gen.issued().drop_last() =~= old(gen).issued());
        assert(props.pairs() =~= seq![("language"@, code_language(pre@, code@))]);
    }
    proof {
        lemma_blocks_view_empty();
    }
    Block { id, block_type, content: BlockContent::Inline(content), props, children: Vec::new() }
}

fn parse_table_row<'a>(tr: &Located<'a>) -> (r: TableRow)
    ensures
        r@ == table_row_view(located_view(*tr)),
{
    let tds = select(&Sel::Tag("td"), tr.node, &tr.chain);
    let ghost tv = tds@.map_values(|l: Located| located_view(l));
    let mut cells: Vec<Vec<InlineContent>> = Vec::new();
    let k = tds.len();
    let mut i: usize = 0;
    while i < k
        invariant
            k == tds@.len(),
            i <= k,
            tv == tds@.map_values(|l: Located| located_view(l)),
            cells@.len() == i,
            forall|j: int|
                0 <= j < i ==> inlines_view(#[trigger] cells@[j]@) == node_inline(tv[j].0, tv[j].1),
        decreases k - i,
    {
        let c = parse_single_node_content(tds[i].node, &tds[i].chain);
        cells.push(c);
        i = i + 1;
    }
    let r = TableRow { cells };
    assert(r@.cells =~= tv.map_values(|td: (DomView, Seq<DomView>)| node_inline(td.0, td.1)));
    r
}

/// Reads the content of a `table` of the content type given (see
/// `table_content_view`).
fn parse_table_content<'a>(n: &'a DomNode, chain: &Vec<&'a DomNode>, content_type: String) -> (t: TableContent)
    ensures
        t@ == table_content_view(n@, chain_view(chain@), content_type@),
{
    let trs = select(&Sel::Tag("tr"), n, chain);
    let ghost tv = trs@.map_values(|l: Located| located_view(l));
    let mut rows: Vec<TableRow> = Vec::new();
    let k = trs.len();
    let mut i: usize = 0;
    while i < k
        invariant
            k == trs@.len(),
            i <= k,
            tv == trs@.map_values(|l: Located| located_view(l)),
            rows@.len() == i,
            forall|j: int| 0 <= j < i ==> (#[trigger] rows@[j])@ == table_row_view(tv[j]),
        decreases k - i,
    {
        let r = parse_table_row(&trs[i]);
        rows.push(r);
        i = i + 1;
    }
    let widths = match attr(n, "data-column-widths") {
        Some(w) => if is_json_number_list(w.as_str()) {
            w.clone()
        } else {
            to_owned("[]")
        },
        None => to_owned("[]"),
    };
    let table = TableContent { content_type, column_widths: widths, rows };
    assert(table@.rows =~= tv.map_values(|tr: (DomView, Seq<DomView>)| table_row_view(tr)));
    table
}

/// Reads a `table` (see `table_block_view`).
pub fn parse_table_block<'a>(n: &'a DomNode, chain: &Vec<&'a DomNode>, gen: &mut IdGen) -> (b: Block)
    ensures
        final(gen).issued().len() == old(gen).issued().len() + 1,
        final(gen).issued().drop_last() == old(gen).issued(),
        block_view(b) == table_block_view(n@, chain_view(chain@), final(gen).issued().last()),
{
    let table = parse_table_content(n, chain, to_owned("default"));
    let props = parse_block_props(n);
    let id = generate_id(gen);
    proof {
        assert(gen.issued().drop_last() =~= old(gen).issued());
        lemma_blocks_view_empty();
    }
    Block {
        id,
        block_type: to_owned("table"),
        content: BlockContent::Table(table),
        props,
        children: Vec::new(),
    }
}

/// Reads the content of a block container's `.bn-block` element (see
/// `container_content`).
fn parse_container_content<'a>(b: &Located<'a>) -> (c: BlockContent)
    ensures
        c@ == container_content(located_view(*b)),
{
    let kids = match node_children(b.node) {
        Some(k) => k,
        None => {
            assert(children_of(located_view(*b).0) =~= Seq::<DomView>::empty());
            return BlockContent::Empty;
        },
    };
    let ghost kv = doms_view(kids@);
    let cch = child_chain(&b.chain, b.node);
    let k = kids.len();
    let mut i: usize = 0;
    assert(kv.skip(0) =~= kv);
    while i < k
        invariant
            k == kids@.len(),
            i <= k,
            kv == doms_view(kids@),
            kv == children_of(located_view(*b).0),
            content_child(kv) == content_child(kv.skip(i as int)),
            chain_view(cch@) == located_view(*b).1.push(located_view(*b).0),
        decreases k - i,
    {
        assert(kv.skip(i as int)[0] == dom_view(kids@[i as int]));
        assert(kv.skip(i as int).skip(1) =~= kv.skip(i + 1));
        if has_class_exec(&kids[i], "bn-block-content") {
            let c = &kids[i];
            assert(content_child(kv.skip(i as int)) == Some(dom_view(*c)));
            assert(chain_view(cch@) == located_view(*b).1.push(located_view(*b).0));
            return match select_first_exec(&Sel::Tag("table"), c, &cch) {
                Some(t) => {
                    let ct = match attr(t.node, "data-type") {
                        Some(v) => v.clone(),
                        None => to_owned("default"),
                    };
                    BlockContent::Table(parse_table_content(t.node, &t.chain, ct))
                },
                None => BlockContent::Inline(parse_single_node_content(c, &cch)),
            };
        }
        i = i + 1;
    }
    assert(kv.skip(k as int) =~= Seq::<DomView>::empty());
    BlockContent::Empty
}

/// Reads a `p` or a heading (see `paragraph_view`).
fn parse_paragraph<'a>(n: &'a DomNode, chain: &Vec<&'a DomNode>, ln: &str, gen: &mut IdGen) -> (b: Block)
    requires
        ln@ == lowercase_name(n@),
        ln@ == "p"@ || is_heading_name(ln@),
    ensures
        final(gen).issued().len() == old(gen).issued().len() + 1,
        final(gen).issued().drop_last() == old(gen).issued(),
        block_view(b) == paragraph_view(n@, chain_view(chain@), final(gen).issued().last()),
{
    let is_p = str_equal(ln, "p");
    let mut props = StringMap::new();
    if !is_p {
        proof {
            reveal_strlit("h1");
            reveal_strlit("h2");
            reveal_strlit("h3");
            reveal_strlit("h4");
            reveal_strlit("h5");
            reveal_strlit("h6");
        }
        let level = ln.substring_char(1, ln.unicode_len());
        assert(level@ =~= ln@.skip(1));
        props.insert(to_owned("level"), to_owned(level));
    }
    let block_type = if is_p {
        to_owned("paragraph")
    } else {
        to_owned("heading")
    };
    let content = parse_single_node_content(n, chain);
    let id = generate_id(gen);
    proof {
        assert(gen.issued().drop_last() =~= old(gen).issued());
        if is_p {
            assert(props.pairs() =~= Seq::<(Seq<char>, Seq<char>)>::empty());
        } else {
            assert(props.pairs() =~= seq![("level"@, ln@.skip(1))]);
        }
    }
    proof {
        lemma_blocks_view_empty();
    }
    Block { id, block_type, content: BlockContent::Inline(content), props, children: Vec::new() }
}

/// Whether another item of `items` has a child with the id `id`.
fn nested_in_exec(items: &Vec<Block>, id: &str) -> (r: bool)
    ensures
        r == nested_in(blocks_view(items@), id@),
{
    let ghost iv = blocks_view(items@);
    let k = items.len();
    let mut j: usize = 0;
    while j < k
        invariant
            k == items@.len(),
            j <= k,
            iv == blocks_view(items@),
            forall|jj: int, c: int|
                #![trigger iv[jj].children[c]]
                0 <= jj < j && iv[jj].id != id@ && 0 <= c < iv[jj].children.len() ==> iv[jj].children[c].id != id@,
        decreases k - j,
    {
        assert(iv[j as int] == block_view(items@[j as int]));
        assert(iv[j as int].children.len() == items@[j as int].children@.len());
        if !str_equal(items[j].id.as_str(), id) {
            let kids = &items[j].children;
            let m = kids.len();
            let mut c: usize = 0;
            while c < m
                invariant
                    k == items@.len(),
                    j < k,
                    m == kids@.len(),
                    kids == &items@[j as int].children,
                    c <= m,
                    iv == blocks_view(items@),
                    m == iv[j as int].children.len(),
                    iv[j as int] == block_view(items@[j as int]),
                    items@[j as int].id@ != id@,
                    forall|cc: int| 0 <= cc < c ==> iv[j as int].children[cc].id != id@,
                decreases m - c,
            {
                assert(iv[j as int].children[c as int] == block_view(kids@[c as int]));
                if str_equal(kids[c].id.as_str(), id) {
                    assert(iv[j as int].children[c as int].id == id@);
                    assert(iv[j as int].id != id@);
                    return true;
                }
                c = c + 1;
            }
        }
        j = j + 1;
    }
    false
}

/// The items of a list that are not the child of another item (see
/// `top_items`).
fn top_items_exec(items: Vec<Block>) -> (r: Vec<Block>)
    ensures
        blocks_view(r@) == top_items(blocks_view(items@)),
{
    let ghost all = blocks_view(items@);
    let k = items.len();
    let mut keep: Vec<bool> = Vec::new();
    let mut i: usize = 0;
    while i < k
        invariant
            k == items@.len(),
            i <= k,
            all == blocks_view(items@),
            keep@.len() == i,
            forall|j: int| 0 <= j < i ==> keep@[j] == !nested_in(all, all[j].id),
        decreases k - i,
    {
        let nested = nested_in_exec(&items, items[i].id.as_str());
        keep.push(!nested);
        i = i + 1;
    }
    let mut items = items;
    let mut out: Vec<Block> = Vec::new();
    let mut i: usize = 0;
    proof {
        lemma_blocks_view_empty();
        assert(all.take(0) =~= Seq::<BlockView>::empty());
    }
    while items.len() > 0
        invariant
            i + items@.len() == k,
            keep@.len() == k,
            forall|j: int| 0 <= j < k ==> keep@[j] == !nested_in(all, all[j].id),
            blocks_view(items@) == all.skip(i as int),
            k == all.len(),
            blocks_view(out@) == top_of(all, all.take(i as int)),
        decreases items@.len(),
    {
        let ghost before = items@;
        let b = items.remove(0);
        proof {
            assert(before =~= seq![b] + items@);
            assert(blocks_view(items@) =~= blocks_view(before).skip(1));
            assert(all.skip(i as int).skip(1) =~= all.skip(i + 1));
            assert(all.skip(i as int)[0] == all[i as int]);
            assert(all.take(i + 1).drop_last() =~= all.take(i as int));
            assert(all.take(i + 1).last() == all[i as int]);
        }
        let ghost ob = out@;
        if keep[i] {
            out.push(b);
            proof {
                lemma_blocks_view_push(ob, b);
            }
        } else {
            assert(blocks_view(out@) =~= blocks_view(ob) + Seq::<BlockView>::empty());
        }
        i = i + 1;
    }
    assert(all.take(k as int) =~= all);
    out
}


/// How an element is read as blocks.
pub enum ReadAs {
    /// Its children are read, each on its own.
    Children,
    /// A BlockNote block container: one block, whose children are read
    /// from the block groups of its `.bn-block` element.
    Container,
    /// A paragraph or a heading.
    Paragraph,
    /// A `pre`: a code block if it holds a `code`, else a text block.
    Code,
    /// A list: its items.
    List,
    /// A table.
    Table,
    /// A `div` that holds no block element: a text block.
    Text,
    /// Not an element: no block.
    Nothing,
}

/// The `class` attribute holds `c` anywhere in it.
pub open spec fn class_contains(n: DomView, c: Seq<char>) -> bool {
    match attr_of(n, "class"@) {
        Some(v) => seq_contains(v, c),
        None => false,
    }
}

/// The `.bn-block` element of a block container, when it has a
/// `data-type`.
pub open spec fn container_block(n: DomView, chain: Seq<DomView>) -> Option<(DomView, Seq<DomView>)> {
    match select_first(Sel::Class("bn-block"), n, chain) {
        Some(b) => if attr_of(b.0, "data-type"@) is Some {
            Some(b)
        } else {
            None
        },
        None => None,
    }
}

/// A child that makes a `div` hold blocks: a `p`, `div`, `ul`, `ol` or
/// `table` element.
pub open spec fn is_block_child(c: DomView) -> bool {
    let n = lowercase_name(c);
    c is Element && (n == "p"@ || n == "div"@ || n == "ul"@ || n == "ol"@ || n == "table"@)
}

pub open spec fn has_block_child(s: Seq<DomView>) -> bool {
    exists|i: int| 0 <= i < s.len() && is_block_child(#[trigger] s[i])
}

/// How an element is read: a BlockNote container or block group (`div`s)
/// by its children, a block container as one block, `p` and headings,
/// `pre`, lists and tables by their kind, a `div` holding no block element
/// as a text block, any other element by its children.
pub open spec fn read_as(n: DomView, chain: Seq<DomView>) -> ReadAs {
    match n {
        DomView::Element { children, .. } => {
            let ln = lowercase_name(n);
            if ln == "div"@ && (class_contains(n, "bn-container"@) || is_group_div(n) || has_class(
                n,
                "bn-block-group"@,
            )) {
                ReadAs::Children
            } else if ln == "div"@ && class_contains(n, "bn-block-container"@) && container_block(
                n,
                chain,
            ) is Some {
                ReadAs::Container
            } else if ln == "p"@ || is_heading_name(ln) {
                ReadAs::Paragraph
            } else if ln == "pre"@ {
                ReadAs::Code
            } else if ln == "ul"@ || ln == "ol"@ {
                ReadAs::List
            } else if ln == "table"@ {
                ReadAs::Table
            } else if ln == "div"@ && !has_block_child(children) {
                ReadAs::Text
            } else {
                ReadAs::Children
            }
        },
        _ => ReadAs::Nothing,
    }
}

/// The number of block ids that reading a node uses.
pub open spec fn block_count(n: DomView, chain: Seq<DomView>) -> nat
    decreases node_size(n), 2nat, 0nat,
{
    match n {
        DomView::Element { children, .. } => match read_as(n, chain) {
            ReadAs::Children => children_count(children, chain.push(n), node_size(n)),
            ReadAs::Container => {
                let b = container_block(n, chain)->0;
                1 + group_count(children_of(b.0), b.1.push(b.0), node_size(n))
            },
            ReadAs::List => items_count(children),
            ReadAs::Nothing => 0,
            _ => 1,
        },
        _ => 0,
    }
}

/// The number of block ids that reading the nodes of `s` that are not
/// white-space text uses (each node smaller than `bound`).
pub open spec fn children_count(s: Seq<DomView>, chain: Seq<DomView>, bound: nat) -> nat
    decreases bound, 0nat, s.len(),
{
    if s.len() == 0 {
        0
    } else {
        children_count(s.drop_last(), chain, bound) + if !crate::dom_query::is_ws_node(s.last())
            && node_size(s.last()) < bound {
            block_count(s.last(), chain)
        } else {
            0
        }
    }
}

/// The number of block ids that reading the children of the block groups
/// among `s` uses.
pub open spec fn group_count(s: Seq<DomView>, chain: Seq<DomView>, bound: nat) -> nat
    decreases bound, 1nat, s.len(),
{
    if s.len() == 0 {
        0
    } else {
        group_count(s.drop_last(), chain, bound) + if has_class(s.last(), "bn-block-group"@) {
            children_count(children_of(s.last()), chain.push(s.last()), bound)
        } else {
            0
        }
    }
}

/// The blocks read from a node whose ancestors are `chain`, with the ids
/// `ids` in the order they are drawn (a block before its children): a
/// group or any other element gives the blocks of its children; a
/// BlockNote block container gives one block, whose children are the
/// blocks of the children of the block groups in its `.bn-block` element;
/// `p` and headings, `pre`, lists, tables and `div`s that hold no block
/// element give their blocks; other nodes give none.
pub open spec fn blocks_of(n: DomView, chain: Seq<DomView>, ids: Seq<Seq<char>>) -> Seq<BlockView>
    decreases node_size(n), 2nat, 0nat,
{
    match n {
        DomView::Element { children, .. } => match read_as(n, chain) {
            ReadAs::Children => children_blocks(children, chain.push(n), ids, node_size(n)),
            ReadAs::Container => {
                let b = container_block(n, chain)->0;
                seq![
                    container_view(
                        b,
                        ids[0],
                        group_blocks(children_of(b.0), b.1.push(b.0), ids.skip(1), node_size(n)),
                    ),
                ]
            },
            ReadAs::Paragraph => seq![paragraph_view(n, chain, ids[0])],
            ReadAs::Code => match first_code(n, chain) {
                Some(code) => seq![code_block_view(n, code.0, ids[0])],
                None => seq![text_block_view(n, chain, ids[0])],
            },
            ReadAs::List => top_items(
                list_items(children, lowercase_name(n) == "ol"@, chain.push(n), ids),
            ),
            ReadAs::Table => seq![table_block_view(n, chain, ids[0])],
            ReadAs::Text => seq![text_block_view(n, chain, ids[0])],
            ReadAs::Nothing => Seq::empty(),
        },
        _ => Seq::empty(),
    }
}

/// The blocks read from the nodes of `s` that are not white-space text,
/// in order.
pub open spec fn children_blocks(s: Seq<DomView>, chain: Seq<DomView>, ids: Seq<Seq<char>>, bound: nat) -> Seq<BlockView>
    decreases bound, 0nat, s.len(),
{
    if s.len() == 0 {
        Seq::empty()
    } else {
        let k = children_count(s.drop_last(), chain, bound);
        children_blocks(s.drop_last(), chain, ids.take(k as int), bound) + if !crate::dom_query::is_ws_node(
            s.last(),
        ) && node_size(s.last()) < bound {
            blocks_of(s.last(), chain, ids.skip(k as int))
        } else {
            Seq::empty()
        }
    }
}

/// The blocks read from the children of the block groups among `s`, in
/// order.
pub open spec fn group_blocks(s: Seq<DomView>, chain: Seq<DomView>, ids: Seq<Seq<char>>, bound: nat) -> Seq<BlockView>
    decreases bound, 1nat, s.len(),
{
    if s.len() == 0 {
        Seq::empty()
    } else {
        let k = group_count(s.drop_last(), chain, bound);
        group_blocks(s.drop_last(), chain, ids.take(k as int), bound) + if has_class(
            s.last(),
            "bn-block-group"@,
        ) {
            children_blocks(children_of(s.last()), chain.push(s.last()), ids.skip(k as int), bound)
        } else {
            Seq::empty()
        }
    }
}

fn class_contains_exec(n: &DomNode, c: &str) -> (r: bool)
    ensures
        r == class_contains(n@, c@),
{
    match attr(n, "class") {
        Some(v) => contains(v.as_str(), c),
        None => false,
    }
}

fn attr_is(n: &DomNode, k: &str, v: &str) -> (r: bool)
    ensures
        r == (attr_of(n@, k@) == Some(v@)),
{
    match attr(n, k) {
        Some(x) => str_equal(x.as_str(), v),
        None => false,
    }
}

fn read_as_exec(n: &DomNode, chain: &Vec<&DomNode>) -> (r: ReadAs)
    ensures
        r == read_as(n@, chain_view(chain@)),
{
    match n {
        DomNode::Element(_) => {
            let ln = lowercase_name_exec(n);
            let s = ln.as_str();
            let is_div = str_equal(s, "div");
            if is_div && (class_contains_exec(n, "bn-container") || attr_is(n, "data-node-type", "blockGroup")
                || has_class_exec(n, "bn-block-group")) {
                ReadAs::Children
            } else if is_div && class_contains_exec(n, "bn-block-container") && match select_first_exec(
                &Sel::Class("bn-block"),
                n,
                chain,
            ) {
                Some(b) => attr(b.node, "data-type").is_some(),
                None => false,
            } {
                ReadAs::Container
            } else if str_equal(s, "p") || is_heading_name_exec(s) {
                ReadAs::Paragraph
            } else if str_equal(s, "pre") {
                ReadAs::Code
            } else if str_equal(s, "ul") || str_equal(s, "ol") {
                ReadAs::List
            } else if str_equal(s, "table") {
                ReadAs::Table
            } else if is_div && !has_block_child_exec(n) {
                ReadAs::Text
            } else {
                ReadAs::Children
            }
        },
        _ => ReadAs::Nothing,
    }
}

fn has_block_child_exec(n: &DomNode) -> (r: bool)
    ensures
        r == has_block_child(children_of(n@)),
{
    let kids = match node_children(n) {
        Some(k) => k,
        None => {
            return false;
        },
    };
    let ghost kv = doms_view(kids@);
    let k = kids.len();
    let mut i: usize = 0;
    while i < k
        invariant
            k == kids@.len(),
            i <= k,
            kv == doms_view(kids@),
            kv == children_of(n@),
            forall|j: int| 0 <= j < i ==> !is_block_child(#[trigger] kv[j]),
        decreases k - i,
    {
        let c = &kids[i];
        let is_elem = match c {
            DomNode::Element(_) => true,
            _ => false,
        };
        let ln = lowercase_name_exec(c);
        let t = ln.as_str();
        if is_elem && (str_equal(t, "p") || str_equal(t, "div") || str_equal(t, "ul") || str_equal(t, "ol")
            || str_equal(t, "table")) {
            assert(kv[i as int] == dom_view(kids@[i as int]));
            assert(is_block_child(kv[i as int]));
            return true;
        }
        assert(kv[i as int] == dom_view(kids@[i as int]));
        i = i + 1;
    }
    false
}

proof fn lemma_one_id(g0: Seq<Seq<char>>, g1: Seq<Seq<char>>)
    requires
        g1.len() == g0.len() + 1,
        g1.drop_last() == g0,
    ensures
        grew_by(g1, g0, 1),
        issued_since(g1, g0)[0] == g1.last(),
{
    assert(g1.take(g0.len() as int) =~= g0);
}

/// Reads the blocks of a node whose ancestors are `chain` (see
/// `blocks_of`), drawing the ids from `gen`.
pub fn parse_blocks<'a>(n: &'a DomNode, chain: &Vec<&'a DomNode>, gen: &mut IdGen) -> (r: Vec<Block>)
    ensures
        grew_by(final(gen).issued(), old(gen).issued(), block_count(n@, chain_view(chain@))),
        blocks_view(r@) == blocks_of(n@, chain_view(chain@), issued_since(final(gen).issued(), old(gen).issued())),
    decreases node_size(n@), 2nat, 0nat,
{
    let ghost cv = chain_view(chain@);
    let ghost g0 = gen.issued();
    let kind = read_as_exec(n, chain);
    let kids = match node_children(n) {
        Some(k) => k,
        None => {
            proof {
                crate::list_items::lemma_grew_zero(g0);
                lemma_blocks_view_empty();
            }
            return Vec::new();
        },
    };
    proof {
        assert forall|i: int| 0 <= i < kids@.len() implies node_size(dom_view(#[trigger] kids@[i])) < node_size(n@) by {
            lemma_child_smaller(n@, i);
        }
    }
    match kind {
        ReadAs::Children => {
            let cc = child_chain(chain, n);
            children_blocks_exec(kids, &cc, Ghost(node_size(n@)), gen)
        },
        ReadAs::Container => {
            let b = match select_first_exec(&Sel::Class("bn-block"), n, chain) {
                Some(b) => b,
                None => {
                    assert(false);
                    return Vec::new();
                },
            };
            let block_type = match attr(b.node, "data-type") {
                Some(t) => t.clone(),
                None => {
                    assert(false);
                    return Vec::new();
                },
            };
            let id = generate_id(gen);
            let ghost g1 = gen.issued();
            assert(g1.drop_last() =~= g0);
            let content = parse_container_content(&b);
            let props = parse_block_props(b.node);
            let ghost bv = located_view(b);
            proof {
                let sa = select_all(Sel::Class("bn-block"), n@, cv);
                assert(sa.len() > 0);
                assert(bv == sa[0]);
                lemma_select_all_sizes(Sel::Class("bn-block"), n@, cv);
                assert(node_size(bv.0) <= node_size(n@));
                assert(container_block(n@, cv) == Some(bv));
            }
            let bkids = match node_children(b.node) {
                Some(k) => k,
                None => {
                    assert(false);
                    return Vec::new();
                },
            };
            let bchain = child_chain(&b.chain, b.node);
            proof {
                assert forall|i: int| 0 <= i < bkids@.len() implies node_size(dom_view(#[trigger] bkids@[i])) < node_size(n@) by {
                    lemma_child_smaller(bv.0, i);
                }
            }
            let children = group_blocks_exec(bkids, &bchain, Ghost(node_size(n@)), gen);
            let block = Block { id, block_type, content, props, children };
            proof {
                lemma_one_id(g0, g1);
                crate::list_items::lemma_grew_trans(
                    g0,
                    g1,
                    gen.issued(),
                    1,
                    group_count(children_of(bv.0), bv.1.push(bv.0), node_size(n@)),
                );
                let ids = issued_since(gen.issued(), g0);
                assert(ids.take(1)[0] == ids[0]);
                assert(ids[0] == id@);
                assert(issued_since(gen.issued(), g1) =~= ids.skip(1));
                assert(block_view(block) == container_view(bv, ids[0], blocks_view(block.children@)));
            }
            one_block(block)
        },
        ReadAs::Paragraph => {
            let ln = lowercase_name_exec(n);
            let b = parse_paragraph(n, chain, ln.as_str(), gen);
            proof {
                lemma_one_id(g0, gen.issued());
            }
            one_block(b)
        },
        ReadAs::Code => {
            let b = match select_first_exec(&Sel::Tag("code"), n, chain) {
                Some(code) => parse_code_block(n, code.node, gen),
                None => parse_text_block(n, chain, gen),
            };
            proof {
                lemma_one_id(g0, gen.issued());
            }
            one_block(b)
        },
        ReadAs::List => {
            let ordered = crate::dom_query::lname_is(n, "ol");
            let cc = child_chain(chain, n);
            let items = list_items_exec(n, kids, ordered, &cc, gen);
            top_items_exec(items)
        },
        ReadAs::Table => {
            let b = parse_table_block(n, chain, gen);
            proof {
                lemma_one_id(g0, gen.issued());
            }
            one_block(b)
        },
        ReadAs::Text => {
            let b = parse_text_block(n, chain, gen);
            proof {
                lemma_one_id(g0, gen.issued());
            }
            one_block(b)
        },
        ReadAs::Nothing => {
            proof {
                crate::list_items::lemma_grew_zero(g0);
                lemma_blocks_view_empty();
            }
            Vec::new()
        },
    }
}

fn one_block(b: Block) -> (r: Vec<Block>)
    ensures
        blocks_view(r@) == seq![block_view(b)],
{
    let mut v: Vec<Block> = Vec::new();
    v.push(b);
    proof {
        lemma_blocks_view_empty();
        lemma_blocks_view_push(Seq::empty(), b);
    }
    v
}

/// Reads the blocks of the nodes of `s` that are not white-space text.
fn children_blocks_exec<'a>(s: &'a Vec<DomNode>, chain: &Vec<&'a DomNode>, bound: Ghost<nat>, gen: &mut IdGen) -> (r: Vec<Block>)
    requires
        forall|i: int| 0 <= i < s@.len() ==> node_size(dom_view(#[trigger] s@[i])) < bound@,
    ensures
        grew_by(final(gen).issued(), old(gen).issued(), children_count(doms_view(s@), chain_view(chain@), bound@)),
        blocks_view(r@) == children_blocks(
            doms_view(s@),
            chain_view(chain@),
            issued_since(final(gen).issued(), old(gen).issued()),
            bound@,
        ),
    decreases bound@, 0nat, s@.len(),
{
    let ghost g0 = gen.issued();
    let ghost sv = doms_view(s@);
    let ghost cv = chain_view(chain@);
    let mut out: Vec<Block> = Vec::new();
    let k = s.len();
    let mut i: usize = 0;
    proof {
        crate::list_items::lemma_grew_zero(g0);
        lemma_blocks_view_empty();
        assert(sv.take(0) =~= Seq::<DomView>::empty());
    }
    while i < k
        invariant
            k == s@.len(),
            i <= k,
            sv == doms_view(s@),
            cv == chain_view(chain@),
            forall|j: int| 0 <= j < s@.len() ==> node_size(dom_view(#[trigger] s@[j])) < bound@,
            grew_by(gen.issued(), g0, children_count(sv.take(i as int), cv, bound@)),
            blocks_view(out@) == children_blocks(sv.take(i as int), cv, issued_since(gen.issued(), g0), bound@),
        decreases k - i,
    {
        let ghost g1 = gen.issued();
        let ghost before = out@;
        proof {
            assert(sv.take(i + 1).drop_last() =~= sv.take(i as int));
            assert(sv.take(i + 1).last() == dom_view(s@[i as int]));
            assert(node_size(dom_view(s@[i as int])) < bound@);
        }
        let c1 = Ghost(children_count(sv.take(i as int), cv, bound@));
        if !crate::dom_query::is_whitespace_node(&s[i]) {
            let mut bs = parse_blocks(&s[i], chain, gen);
            let ghost bseq = bs@;
            out.append(&mut bs);
            proof {
                crate::blocks::lemma_blocks_view_add(before, bseq);
                crate::list_items::lemma_grew_trans(g0, g1, gen.issued(), c1@, block_count(sv[i as int], cv));
            }
        } else {
            proof {
                crate::list_items::lemma_grew_zero(g1);
                crate::list_items::lemma_grew_trans(g0, g1, gen.issued(), c1@, 0);
                assert(blocks_view(out@) =~= blocks_view(before) + Seq::<BlockView>::empty());
            }
        }
        i = i + 1;
    }
    assert(sv.take(k as int) =~= sv);
    out
}

/// Reads the blocks of the children of the block groups among `s`, in
/// order.
fn group_blocks_exec<'a>(s: &'a Vec<DomNode>, chain: &Vec<&'a DomNode>, bound: Ghost<nat>, gen: &mut IdGen) -> (r: Vec<Block>)
    requires
        forall|i: int| 0 <= i < s@.len() ==> node_size(dom_view(#[trigger] s@[i])) < bound@,
    ensures
        grew_by(final(gen).issued(), old(gen).issued(), group_count(doms_view(s@), chain_view(chain@), bound@)),
        blocks_view(r@) == group_blocks(
            doms_view(s@),
            chain_view(chain@),
            issued_since(final(gen).issued(), old(gen).issued()),
            bound@,
        ),
    decreases bound@, 1nat, s@.len(),
{
    let ghost g0 = gen.issued();
    let ghost sv = doms_view(s@);
    let ghost cv = chain_view(chain@);
    let mut out: Vec<Block> = Vec::new();
    let k = s.len();
    let mut i: usize = 0;
    proof {
        crate::list_items::lemma_grew_zero(g0);
        lemma_blocks_view_empty();
        assert(sv.take(0) =~= Seq::<DomView>::empty());
    }
    while i < k
        invariant
            k == s@.len(),
            i <= k,
            sv == doms_view(s@),
            cv == chain_view(chain@),
            forall|j: int| 0 <= j < s@.len() ==> node_size(dom_view(#[trigger] s@[j])) < bound@,
            grew_by(gen.issued(), g0, group_count(sv.take(i as int), cv, bound@)),
            blocks_view(out@) == group_blocks(sv.take(i as int), cv, issued_since(gen.issued(), g0), bound@),
        decreases k - i,
    {
        let ghost g1 = gen.issued();
        let ghost before = out@;
        proof {
            assert(sv.take(i + 1).drop_last() =~= sv.take(i as int));
            assert(sv.take(i + 1).last() == dom_view(s@[i as int]));
        }
        let c1 = Ghost(group_count(sv.take(i as int), cv, bound@));
        let g = &s[i];
        let kids = if has_class_exec(g, "bn-block-group") {
            node_children(g)
        } else {
            None
        };
        match kids {
            Some(kids) => {
                let gc = child_chain(chain, g);
                proof {
                    assert forall|j: int| 0 <= j < kids@.len() implies node_size(dom_view(#[trigger] kids@[j])) < bound@ by {
                        lemma_child_smaller(sv[i as int], j);
                    }
                }
                let mut bs = children_blocks_exec(kids, &gc, bound, gen);
                let ghost bseq = bs@;
                out.append(&mut bs);
                proof {
                    crate::blocks::lemma_blocks_view_add(before, bseq);
                    crate::list_items::lemma_grew_trans(
                        g0,
                        g1,
                        gen.issued(),
                        c1@,
                        children_count(children_of(sv[i as int]), cv.push(sv[i as int]), bound@),
                    );
                }
            },
            None => {
                proof {
                    crate::list_items::lemma_grew_zero(g1);
                    crate::list_items::lemma_grew_trans(g0, g1, gen.issued(), c1@, 0);
                    assert(blocks_view(out@) =~= blocks_view(before) + Seq::<BlockView>::empty());
                }
            },
        }
        i = i + 1;
    }
    assert(sv.take(k as int) =~= sv);
    out
}

/// The node whose children are read: the first `body`, else the first
/// `div`, else the document itself; with its ancestors.
pub open spec fn document_root(doc: DomView) -> (DomView, Seq<DomView>) {
    match select_first(Sel::Tag("body"), doc, Seq::empty()) {
        Some(b) => b,
        None => match select_first(Sel::Tag("div"), doc, Seq::empty()) {
            Some(d) => d,
            None => (doc, Seq::empty()),
        },
    }
}

/// The blocks of a document: the root's list items are rearranged, then
/// the root's children that are not white-space text are read in order.
pub open spec fn document_blocks(doc: DomView, ids: Seq<Seq<char>>) -> Seq<BlockView> {
    let root = document_root(doc);
    let p = processed_lists(root.0);
    children_blocks(children_of(p), root.1.push(p), ids, node_size(p))
}

/// The number of block ids that reading a document uses.
pub open spec fn document_block_count(doc: DomView) -> nat {
    let root = document_root(doc);
    let p = processed_lists(root.0);
    children_count(children_of(p), root.1.push(p), node_size(p))
}

/// The blocks that HTML text gives, with the ids `ids`.
pub open spec fn html_blocks(html: Seq<char>, ids: Seq<Seq<char>>) -> Seq<BlockView> {
    document_blocks(document_of_events(parsed_html_events(html)), ids)
}

/// The number of block ids that reading HTML text uses.
pub open spec fn html_block_count(html: Seq<char>) -> nat {
    document_block_count(document_of_events(parsed_html_events(html)))
}

/// Reads the blocks of a parsed document (see `document_blocks`), drawing
/// the ids from `gen`.
pub fn parse_document_to_blocks(doc: &DomNode, gen: &mut IdGen) -> (r: Vec<Block>)
    ensures
        grew_by(final(gen).issued(), old(gen).issued(), document_block_count(doc@)),
        blocks_view(r@) == document_blocks(doc@, issued_since(final(gen).issued(), old(gen).issued())),
{
    let empty: Vec<&DomNode> = Vec::new();
    assert(chain_view(empty@) =~= Seq::<DomView>::empty());
    let root = match select_first_exec(&Sel::Tag("body"), doc, &empty) {
        Some(b) => b,
        None => match select_first_exec(&Sel::Tag("div"), doc, &empty) {
            Some(d) => d,
            None => {
                let c: Vec<&DomNode> = Vec::new();
                Located { node: doc, chain: c }
            },
        },
    };
    assert(located_view(root) == document_root(doc@));
    let p = process_nested_lists(root.node);
    let mut pchain: Vec<&DomNode> = crate::dom_query::copy_chain(&root.chain);
    pchain.push(&p);
    assert(chain_view(pchain@) =~= chain_view(root.chain@).push(p@));
    match node_children(&p) {
        Some(kids) => {
            proof {
                assert forall|i: int| 0 <= i < kids@.len() implies node_size(dom_view(#[trigger] kids@[i])) < node_size(p@) by {
                    lemma_child_smaller(p@, i);
                }
            }
            children_blocks_exec(kids, &pchain, Ghost(node_size(p@)), gen)
        },
        None => {
            proof {
                crate::list_items::lemma_grew_zero(gen.issued());
                lemma_blocks_view_empty();
            }
            Vec::new()
        },
    }
}

/// Converts HTML text to BlockNote blocks: the text is parsed as an HTML
/// document, and its root read (see `document_blocks`). Each block gets a
/// new id `block_<nanoseconds>`; whatever ids come, the blocks are those
/// that `html_blocks` gives with them.
pub fn try_parse_html_to_blocks(html: &str) -> (r: Vec<Block>)
    ensures
        exists|ids: Seq<Seq<char>>|
            ids.len() == html_block_count(html@) && (forall|i: int|
                0 <= i < ids.len() ==> is_block_id(#[trigger] ids[i])) && blocks_view(r@) == html_blocks(html@, ids),
{
    let events = parse_html_events(html);
    let doc = build_document(&events);
    let mut gen = IdGen::new();
    let r = parse_document_to_blocks(&doc, &mut gen);
    proof {
        use_type_invariant(&gen);
        let ids = gen.issued();
        assert(issued_since(ids, Seq::<Seq<char>>::empty()) =~= ids);
        assert(forall|i: int| 0 <= i < ids.len() ==> is_block_id(#[trigger] ids[i]));
    }
    r
}

/// A `div` without a class that holds a `p`, `div`, `ul`, `ol` or `table`
/// element is read by its children: a list in it gives its items, not a
/// text block.
pub proof fn lemma_div_with_blocks_reads_children(n: DomView, chain: Seq<DomView>, ids: Seq<Seq<char>>, i: int)
    requires
        lowercase_name(n) == "div"@,
        attr_of(n, "class"@) is None,
        0 <= i < children_of(n).len(),
        children_of(n)[i] is Element,
        lowercase_name(children_of(n)[i]) == "p"@ || lowercase_name(children_of(n)[i]) == "div"@
            || lowercase_name(children_of(n)[i]) == "ul"@ || lowercase_name(children_of(n)[i]) == "ol"@
            || lowercase_name(children_of(n)[i]) == "table"@,
    ensures
        read_as(n, chain) == ReadAs::Children,
        blocks_of(n, chain, ids) == children_blocks(children_of(n), chain.push(n), ids, node_size(n)),
{
    reveal_strlit("div");
    reveal_strlit("p");
    reveal_strlit("ul");
    reveal_strlit("ol");
    reveal_strlit("table");
    reveal_strlit("pre");
    reveal_strlit("h1");
    reveal_strlit("h2");
    reveal_strlit("h3");
    reveal_strlit("h4");
    reveal_strlit("h5");
    reveal_strlit("h6");
    assert(is_block_child(children_of(n)[i]));
    assert(has_block_child(children_of(n)));
    assert(!class_contains(n, "bn-container"@));
    assert(!class_contains(n, "bn-block-container"@));
    assert(!has_class(n, "bn-block-group"@));
    assert("div"@.len() == 3 && "h1"@.len() == 2 && "h2"@.len() == 2 && "h3"@.len() == 2);
    assert("h4"@.len() == 2 && "h5"@.len() == 2 && "h6"@.len() == 2);
    assert(!is_heading_name("div"@));
    assert("div"@[0] != "pre"@[0]);
    assert("div"@.len() != "p"@.len() && "div"@.len() != "ul"@.len() && "div"@.len() != "ol"@.len()
        && "div"@.len() != "table"@.len());
}

} // verus!
