use vstd::prelude::*;
use vstd::string::*;

use crate::blocks::{
    block_view, blocks_view, content_view, inlines_view, row_view, Block, BlockContent, BlockView,
    ContentView, InlineContent, InlineView, RowView, TableContent, TableRow, TableView,
};
use crate::dom::DomView;
use crate::dom_query::{
    attr_of, children_of, has_class, has_class_token, is_class_sep, is_tag, lemma_child_smaller,
    lower_ascii_only, lowercase, node_size, sel_matches, select_all, select_first, select_forest,
    Sel,
};
use crate::html::{
    block_attrs, cell_node, content_nodes, element, full_block_node, full_block_nodes,
    full_group_node, one_attr, row_node, span_node, span_nodes, table_attrs, table_node,
    with_prefixed,
};
use crate::html_parser::{
    blocks_of, children_blocks, class_contains, container_block, container_content, group_count,
    container_view, content_child, group_blocks, is_heading_name,
    json_number_list, read_as, table_content_view, table_row_view, table_widths, ReadAs,
};
use crate::inline_parse::{
    ancestor_styles, block_props_of, data_styles, element_styles, forest_inline, lowercase_name,
    node_inline, prefixed_styles, prop_pairs, skipped_element, strip_all, style_prefix,
    styles_upward,
};
use crate::list_items::is_group_div;
use crate::string_map::{insert_pair, keys_distinct, lemma_insert_absent, lemma_lookup_none, lookup};
use crate::text::{all_ws, occurs_at, seq_contains, seq_starts_with};

verus! {

proof fn lemma_not_at(s: Seq<char>, p: Seq<char>, i: int, j: int)
    requires
        0 <= j < p.len(),
        0 <= i,
        i + j < s.len(),
        s[i + j] != p[j],
    ensures
        !occurs_at(s, p, i),
{
    if occurs_at(s, p, i) {
        assert(s.subrange(i, i + p.len())[j] == s[i + j]);
    }
}

/// The classes of the full HTML do not hold `bn-container`, and only that
/// of a block container holds `bn-block-container`.
proof fn lemma_class_texts()
    ensures
        !seq_contains("bn-block-group"@, "bn-container"@),
        !seq_contains("bn-block-container"@, "bn-container"@),
        !seq_contains("bn-block-group"@, "bn-block-container"@),
        seq_contains("bn-block-container"@, "bn-block-container"@),
{
    reveal_strlit("bn-block-group");
    reveal_strlit("bn-container");
    reveal_strlit("bn-block-container");
    let g = "bn-block-group"@;
    let c = "bn-container"@;
    let bc = "bn-block-container"@;
    assert forall|i: int| !occurs_at(g, c, i) by {
        if 0 <= i && i + c.len() <= g.len() {
            if i == 0 {
                lemma_not_at(g, c, i, 3);
            } else {
                lemma_not_at(g, c, i, 0);
            }
        }
    }
    assert forall|i: int| !occurs_at(bc, c, i) by {
        if 0 <= i && i + c.len() <= bc.len() {
            if i == 0 {
                lemma_not_at(bc, c, i, 3);
            } else if i == 3 {
                lemma_not_at(bc, c, i, 1);
            } else {
                lemma_not_at(bc, c, i, 0);
            }
        }
    }
    assert forall|i: int| !occurs_at(g, bc, i) by {}
    assert(bc.subrange(0, bc.len() as int) =~= bc);
    assert(occurs_at(bc, bc, 0));
}


/// The class tokens that reading the full HTML looks for.
proof fn lemma_class_tokens()
    ensures
        !has_class_token("bn-block-container"@, "bn-block"@),
        has_class_token("bn-block"@, "bn-block"@),
        !has_class_token("bn-block"@, "bn-block-container"@),
        !has_class_token("bn-block"@, "bn-block-content"@),
        has_class_token("bn-block-content"@, "bn-block-content"@),
        !has_class_token("bn-block-content"@, "bn-block-container"@),
        !has_class_token("bn-block-group"@, "bn-block-container"@),
        !has_class_token("bn-block-content"@, "bn-block-group"@),
        has_class_token("bn-block-group"@, "bn-block-group"@),
        !has_class_token("bn-block-group"@, "bn-block-content"@),
        !has_class_token("bn-block-container"@, "bn-block-group"@),
{
    reveal_strlit("bn-block-container");
    reveal_strlit("bn-block");
    reveal_strlit("bn-block-content");
    reveal_strlit("bn-block-group");
    let bc = "bn-block-container"@;
    let b = "bn-block"@;
    let ct = "bn-block-content"@;
    let g = "bn-block-group"@;
    assert forall|i: int|
        !(occurs_at(bc, b, i) && (i == 0 || is_class_sep(bc[i - 1])) && (i + b.len() == bc.len()
            || is_class_sep(bc[i + b.len()]))) by {
        if 0 <= i && i + b.len() <= bc.len() {
            if i == 3 {
                lemma_not_at(bc, b, i, 1);
            } else if i != 0 {
                lemma_not_at(bc, b, i, 0);
            }
        }
    }
    assert(b.subrange(0, b.len() as int) =~= b);
    assert(occurs_at(b, b, 0));
    assert forall|i: int|
        !(occurs_at(ct, g, i) && (i == 0 || is_class_sep(ct[i - 1])) && (i + g.len() == ct.len()
            || is_class_sep(ct[i + g.len()]))) by {
        if 0 <= i && i + g.len() <= ct.len() {
            if i == 0 {
                lemma_not_at(ct, g, i, 9);
            } else {
                lemma_not_at(ct, g, i, 0);
            }
        }
    }
    assert(g.subrange(0, g.len() as int) =~= g);
    assert(occurs_at(g, g, 0));
    assert forall|i: int|
        !(occurs_at(bc, g, i) && (i == 0 || is_class_sep(bc[i - 1])) && (i + g.len() == bc.len()
            || is_class_sep(bc[i + g.len()]))) by {
        if 0 <= i && i + g.len() <= bc.len() {
            if i == 0 {
                lemma_not_at(bc, g, i, 9);
            } else if i == 3 {
                lemma_not_at(bc, g, i, 1);
            } else {
                lemma_not_at(bc, g, i, 0);
            }
        }
    }
    assert(ct.subrange(0, ct.len() as int) =~= ct);
    assert(occurs_at(ct, ct, 0));
}

pub open spec fn prop_prefix() -> Seq<char> {
    "data-prop-"@
}

/// The entries of `m`, each key with `p` in front.
pub open spec fn prefixed(p: Seq<char>, m: Seq<(Seq<char>, Seq<char>)>) -> Seq<(Seq<char>, Seq<char>)> {
    m.map_values(|e: (Seq<char>, Seq<char>)| (p + e.0, e.1))
}

proof fn lemma_prefix_cancel(p: Seq<char>, x: Seq<char>, y: Seq<char>)
    requires
        p + x == p + y,
    ensures
        x == y,
{
    assert(x =~= (p + x).skip(p.len() as int));
    assert(y =~= (p + y).skip(p.len() as int));
}

proof fn lemma_prefixed_starts(p: Seq<char>, x: Seq<char>, k: Seq<char>)
    requires
        k == p + x,
    ensures
        seq_starts_with(k, p),
{
    assert(k.take(p.len() as int) =~= p);
}

/// With distinct keys none of which begins with `p` in front of it, setting
/// the entries of `m` under prefixed keys appends them.
proof fn lemma_with_prefixed_append(a: Seq<(Seq<char>, Seq<char>)>, p: Seq<char>, m: Seq<(Seq<char>, Seq<char>)>)
    requires
        keys_distinct(m),
        forall|j: int| 0 <= j < a.len() ==> !seq_starts_with(#[trigger] a[j].0, p),
    ensures
        with_prefixed(a, p, m) == a + prefixed(p, m),
    decreases m.len(),
{
    if m.len() > 0 {
        let ml = m.drop_last();
        assert(keys_distinct(ml));
        lemma_with_prefixed_append(a, p, ml);
        let cur = a + prefixed(p, ml);
        let key = p + m.last().0;
        assert forall|j: int| 0 <= j < cur.len() implies cur[j].0 != key by {
            if j < a.len() {
                assert(cur[j] == a[j]);
                if a[j].0 == key {
                    lemma_prefixed_starts(p, m.last().0, a[j].0);
                }
            } else {
                assert(cur[j] == (p + ml[j - a.len()].0, ml[j - a.len()].1));
                if cur[j].0 == key {
                    lemma_prefix_cancel(p, ml[j - a.len()].0, m.last().0);
                    assert(m[j - a.len()].0 == m[m.len() - 1].0);
                }
            }
        }
        lemma_insert_absent(cur, key, m.last().1);
        assert(cur.push((key, m.last().1)) =~= a + prefixed(p, m));
    } else {
        assert(a + prefixed(p, m) =~= a);
    }
}

/// Reading the properties back from the prefixed attributes gives them.
proof fn lemma_prop_pairs_back(a: Seq<(Seq<char>, Seq<char>)>, m: Seq<(Seq<char>, Seq<char>)>)
    requires
        prop_pairs(a) == Seq::<(Seq<char>, Seq<char>)>::empty(),
        keys_distinct(m),
        forall|j: int| 0 <= j < m.len() ==> !seq_starts_with(#[trigger] m[j].0, prop_prefix()),
    ensures
        prop_pairs(a + prefixed(prop_prefix(), m)) == m,
    decreases m.len(),
{
    reveal_strlit("data-prop-");
    let p = prop_prefix();
    if m.len() == 0 {
        assert(a + prefixed(p, m) =~= a);
    } else {
        let ml = m.drop_last();
        assert(keys_distinct(ml));
        lemma_prop_pairs_back(a, ml);
        let all = a + prefixed(p, m);
        assert(all.drop_last() =~= a + prefixed(p, ml));
        let k = m.last().0;
        assert(all.last() == (p + k, m.last().1));
        lemma_prefixed_starts(p, k, p + k);
        assert((p + k).skip(p.len() as int) =~= k);
        assert(!seq_starts_with(k, p));
        assert(strip_all(p + k, p) == strip_all(k, p));
        assert(strip_all(k, p) == k);
        assert forall|j: int| 0 <= j < ml.len() implies ml[j].0 != k by {
            assert(m[j].0 != m[m.len() - 1].0);
        }
        lemma_insert_absent(ml, k, m.last().1);
        assert(ml.push((k, m.last().1)) =~= m);
    }
}


/// The attributes of the `bn-block` div of a block: its class and type,
/// then its properties under `data-prop-`.
proof fn lemma_block_attrs(b: Block)
    requires
        b.props.wf(),
        forall|j: int| 0 <= j < b.props.pairs().len() ==> !seq_starts_with(#[trigger] b.props.pairs()[j].0, prop_prefix()),
    ensures
        block_attrs(b) == seq![("class"@, "bn-block"@), ("data-type"@, b.block_type@)] + prefixed(prop_prefix(), b.props.pairs()),
        lookup(block_attrs(b), "class"@) == Some("bn-block"@),
        lookup(block_attrs(b), "data-type"@) == Some(b.block_type@),
        lookup(block_attrs(b), "data-style"@) is None,
        forall|c: Seq<DomView>|
            #[trigger] block_props_of(DomView::Element { name: "div"@, attrs: block_attrs(b), children: c })
                == b.props.pairs(),
{
    reveal_strlit("class");
    reveal_strlit("data-type");
    reveal_strlit("data-prop-");
    reveal_strlit("data-style");
    reveal_strlit("lang");
    reveal_strlit("bn-block");
    b.props.lemma_wf();
    let p = prop_prefix();
    let one = one_attr("class"@, "bn-block"@);
    assert(one =~= seq![("class"@, "bn-block"@)]);
    let base = insert_pair(one, "data-type"@, b.block_type@);
    assert("class"@.len() == 5);
    assert("data-type"@.len() == 9);
    assert(one[0].0 != "data-type"@);
    assert(one.drop_first() =~= Seq::<(Seq<char>, Seq<char>)>::empty());
    assert(insert_pair(one.drop_first(), "data-type"@, b.block_type@) =~= seq![("data-type"@, b.block_type@)]);
    assert(base =~= seq![("class"@, "bn-block"@), ("data-type"@, b.block_type@)]);
    assert(!seq_starts_with("class"@, p));
    assert(!seq_starts_with("data-type"@, p));
    lemma_with_prefixed_append(base, p, b.props.pairs());
    let attrs = block_attrs(b);
    assert(attrs == base + prefixed(p, b.props.pairs()));
    assert(attrs[0] == ("class"@, "bn-block"@));
    assert(attrs.drop_first()[0] == ("data-type"@, b.block_type@));
    assert(lookup(attrs, "data-type"@) == lookup(attrs.drop_first(), "data-type"@));
    assert forall|k: Seq<char>| !seq_starts_with(k, p) && k != "class"@ && k != "data-type"@ implies lookup(attrs, k) is None by {
        assert forall|j: int| 0 <= j < attrs.len() implies attrs[j].0 != k by {
            if j >= 2 {
                let e = b.props.pairs()[j - 2];
                assert(attrs[j] == (p + e.0, e.1));
                if attrs[j].0 == k {
                    lemma_prefixed_starts(p, e.0, k);
                }
            }
        }
        lemma_lookup_none(attrs, k);
    }
    assert("data-style"@.take(10)[5] != p[5]);
    assert(!seq_starts_with("data-style"@, p));
    assert("data-style"@ != "class"@);
    assert("data-style"@ != "data-type"@);
    assert(!seq_starts_with("lang"@, p));
    assert("lang"@ != "class"@);
    assert("lang"@ != "data-type"@);
    assert(lookup(attrs, "lang"@) is None);
    let p0 = prop_pairs(base);
    assert(base.drop_last() =~= seq![("class"@, "bn-block"@)]);
    let x = base.drop_last();
    assert(x.drop_last() =~= Seq::<(Seq<char>, Seq<char>)>::empty());
    assert(prop_pairs(x.drop_last()) =~= Seq::<(Seq<char>, Seq<char>)>::empty());
    assert(x.last().0 == "class"@);
    assert(prop_pairs(x) == prop_pairs(x.drop_last()));
    assert(base.last().0 == "data-type"@);
    assert(prop_pairs(base) == prop_pairs(x));
    assert(p0 =~= Seq::<(Seq<char>, Seq<char>)>::empty());
    lemma_prop_pairs_back(base, b.props.pairs());
}

/// An element that adds no style to the text under it.
pub open spec fn adds_no_style(e: DomView) -> bool {
    forall|m: Seq<(Seq<char>, Seq<char>)>| #[trigger] element_styles(m, e) == m
}

/// No node of `chain` adds a style.
pub open spec fn plain_chain(chain: Seq<DomView>) -> bool {
    forall|j: int| 0 <= j < chain.len() ==> adds_no_style(#[trigger] chain[j])
}

proof fn lemma_plain_push(chain: Seq<DomView>, e: DomView)
    requires
        plain_chain(chain),
        adds_no_style(e),
    ensures
        plain_chain(chain.push(e)),
{
    assert forall|j: int| 0 <= j < chain.push(e).len() implies adds_no_style(#[trigger] chain.push(e)[j]) by {
        if j < chain.len() {
            assert(chain.push(e)[j] == chain[j]);
        }
    }
}

proof fn lemma_upward_plain(chain: Seq<DomView>, m: Seq<(Seq<char>, Seq<char>)>)
    requires
        plain_chain(chain),
    ensures
        styles_upward(chain, m) == m,
    decreases chain.len(),
{
    if chain.len() > 0 {
        let l = chain.last();
        assert(adds_no_style(chain[chain.len() - 1]));
        assert(element_styles(m, l) == m);
        assert forall|j: int| 0 <= j < chain.drop_last().len() implies adds_no_style(#[trigger] chain.drop_last()[j]) by {
            assert(chain.drop_last()[j] == chain[j]);
        }
        lemma_upward_plain(chain.drop_last(), m);
    }
}

proof fn lemma_prefixed_none(m: Seq<(Seq<char>, Seq<char>)>, attrs: Seq<(Seq<char>, Seq<char>)>)
    requires
        forall|j: int| 0 <= j < attrs.len() ==> !seq_starts_with(#[trigger] attrs[j].0, style_prefix()),
    ensures
        prefixed_styles(m, attrs) == m,
    decreases attrs.len(),
{
    if attrs.len() > 0 {
        assert(!seq_starts_with(attrs[attrs.len() - 1].0, style_prefix()));
        lemma_prefixed_none(m, attrs.drop_last());
    }
}

/// The names of the elements that the full HTML is made of are their own
/// lower case, and none stands for a style.
proof fn lemma_plain_names()
    ensures
        lowercase("div"@) == "div"@,
        lowercase("span"@) == "span"@,
        lowercase("table"@) == "table"@,
        lowercase("tr"@) == "tr"@,
        lowercase("td"@) == "td"@,
{
    reveal_strlit("div");
    reveal_strlit("span");
    reveal_strlit("table");
    reveal_strlit("tr");
    reveal_strlit("td");
    assert(lower_ascii_only("div"@));
    assert(lower_ascii_only("span"@));
    assert(lower_ascii_only("table"@));
    assert(lower_ascii_only("tr"@));
    assert(lower_ascii_only("td"@));
}

/// An element of the full HTML without a `data-style` attribute or one
/// that begins `data-style-` adds no style.
proof fn lemma_plain_element(name: Seq<char>, attrs: Seq<(Seq<char>, Seq<char>)>, children: Seq<DomView>)
    requires
        lookup(attrs, "data-style"@) is None,
        forall|j: int| 0 <= j < attrs.len() ==> !seq_starts_with(#[trigger] attrs[j].0, style_prefix()),
        name == "div"@ || name == "span"@ || name == "table"@ || name == "tr"@ || name == "td"@,
    ensures
        adds_no_style(DomView::Element { name, attrs, children }),
{
    lemma_plain_names();
    reveal_strlit("div");
    reveal_strlit("span");
    reveal_strlit("table");
    reveal_strlit("tr");
    reveal_strlit("td");
    reveal_strlit("strong");
    reveal_strlit("b");
    reveal_strlit("em");
    reveal_strlit("i");
    reveal_strlit("u");
    reveal_strlit("code");
    let e = DomView::Element { name, attrs, children };
    assert(lowercase_name(e) == name);
    assert forall|m: Seq<(Seq<char>, Seq<char>)>| #[trigger] element_styles(m, e) == m by {
        assert(data_styles(m, attrs) == m);
        lemma_prefixed_none(m, attrs);
        assert("span"@[0] != "code"@[0]);
        assert("table"@[0] != "b"@[0]);
        assert("tr"@[0] != "em"@[0]);
        assert("td"@[0] != "em"@[0]);
    }
}

/// Attributes none of which begins `data-style-`.
pub open spec fn no_style_keys(attrs: Seq<(Seq<char>, Seq<char>)>) -> bool {
    forall|j: int| 0 <= j < attrs.len() ==> !seq_starts_with(#[trigger] attrs[j].0, style_prefix())
}

proof fn lemma_one_attr_plain(k: Seq<char>, v: Seq<char>)
    requires
        k == "class"@,
    ensures
        one_attr(k, v) == seq![(k, v)],
        no_style_keys(one_attr(k, v)),
        lookup(one_attr(k, v), "data-style"@) is None,
{
    reveal_strlit("class");
    reveal_strlit("data-style");
    reveal_strlit("data-style-");
    assert(one_attr(k, v) =~= seq![(k, v)]);
    assert(!seq_starts_with("class"@, style_prefix()));
    assert("class"@ != "data-style"@);
    lemma_lookup_none(seq![(k, v)], "data-style"@);
}

/// A `data-prop-` key never begins `data-style-`.
proof fn lemma_prop_not_style(k: Seq<char>)
    requires
        seq_starts_with(k, prop_prefix()),
    ensures
        !seq_starts_with(k, style_prefix()),
{
    reveal_strlit("data-prop-");
    reveal_strlit("data-style-");
    assert(k.take(10)[5] == 'p');
    if seq_starts_with(k, style_prefix()) {
        assert(k.take(11)[5] == 's');
        assert(k.take(11)[5] == k[5]);
        assert(k.take(10)[5] == k[5]);
    }
}

/// The `bn-block` div of a block adds no style.
proof fn lemma_block_div_plain(b: Block, children: Seq<DomView>)
    requires
        b.props.wf(),
        forall|j: int| 0 <= j < b.props.pairs().len() ==> !seq_starts_with(#[trigger] b.props.pairs()[j].0, prop_prefix()),
    ensures
        adds_no_style(DomView::Element { name: "div"@, attrs: block_attrs(b), children }),
{
    reveal_strlit("class");
    reveal_strlit("data-type");
    reveal_strlit("data-style-");
    lemma_block_attrs(b);
    let attrs = block_attrs(b);
    let p = prop_prefix();
    assert forall|j: int| 0 <= j < attrs.len() implies !seq_starts_with(#[trigger] attrs[j].0, style_prefix()) by {
        if j == 0 {
            assert(attrs[j].0 == "class"@);
            assert(!seq_starts_with("class"@, style_prefix()));
        } else if j == 1 {
            assert(attrs[j].0 == "data-type"@);
            assert("data-type"@.len() == 9);
        } else {
            let e = b.props.pairs()[j - 2];
            assert(attrs[j] == (p + e.0, e.1));
            lemma_prefixed_starts(p, e.0, attrs[j].0);
            lemma_prop_not_style(attrs[j].0);
        }
    }
    lemma_plain_element("div"@, attrs, children);
}

/// Reading back the styles that `data-style-*` attributes set.
proof fn lemma_prefixed_back(m: Seq<(Seq<char>, Seq<char>)>)
    requires
        keys_distinct(m),
    ensures
        prefixed_styles(Seq::empty(), prefixed(style_prefix(), m)) == m,
    decreases m.len(),
{
    let p = style_prefix();
    if m.len() == 0 {
        assert(prefixed(p, m) =~= Seq::<(Seq<char>, Seq<char>)>::empty());
    } else {
        let ml = m.drop_last();
        assert(keys_distinct(ml));
        lemma_prefixed_back(ml);
        let all = prefixed(p, m);
        assert(all.drop_last() =~= prefixed(p, ml));
        let k = m.last().0;
        assert(all.last() == (p + k, m.last().1));
        lemma_prefixed_starts(p, k, p + k);
        assert((p + k).skip(p.len() as int) =~= k);
        assert forall|j: int| 0 <= j < ml.len() implies ml[j].0 != k by {
            assert(m[j].0 != m[m.len() - 1].0);
        }
        lemma_lookup_none(ml, k);
        lemma_insert_absent(ml, k, m.last().1);
        assert(ml.push((k, m.last().1)) =~= m);
    }
}

/// The pieces of inline text that read back as they are: each with
/// well-formed styles and text that is not only white space.
pub open spec fn pieces_read_back(v: Seq<InlineContent>) -> bool {
    forall|j: int| 0 <= j < v.len() ==> (#[trigger] v[j]).styles.wf() && !all_ws(v[j].text@)
}

/// What a span gives: its styles, none from its name.
proof fn lemma_span_facts(i: InlineContent)
    requires
        i.styles.wf(),
    ensures
        element_styles(Seq::empty(), span_node(i)) == i.styles.pairs(),
        !skipped_element(span_node(i)),
        lowercase_name(span_node(i)) == "span"@,
{
    reveal_strlit("span");
    reveal_strlit("img");
    reveal_strlit("br");
    reveal_strlit("hr");
    reveal_strlit("data-style");
    reveal_strlit("data-style-");
    reveal_strlit("strong");
    reveal_strlit("b");
    reveal_strlit("em");
    reveal_strlit("i");
    reveal_strlit("u");
    reveal_strlit("code");
    lemma_plain_names();
    i.styles.lemma_wf();
    let p = style_prefix();
    let m = i.styles.pairs();
    lemma_with_prefixed_append(Seq::empty(), p, m);
    let attrs = with_prefixed(Seq::empty(), p, m);
    assert(attrs =~= prefixed(p, m));
    assert forall|j: int| 0 <= j < attrs.len() implies attrs[j].0 != "data-style"@ by {
        assert(attrs[j] == (p + m[j].0, m[j].1));
        assert((p + m[j].0).len() >= 11);
    }
    lemma_lookup_none(attrs, "data-style"@);
    assert(data_styles(Seq::empty(), attrs) == Seq::<(Seq<char>, Seq<char>)>::empty());
    lemma_prefixed_back(m);
    assert("span"@[0] != "code"@[0]);
}

/// A selector of one tag that is not `span`.
pub open spec fn tag_not_span(sel: Sel) -> bool {
    sel matches Sel::Tag(t) && t@ != "span"@
}

proof fn lemma_span_select(i: InlineContent, sel: Sel, ch: Seq<DomView>)
    requires
        tag_not_span(sel),
    ensures
        select_all(sel, span_node(i), ch) == Seq::<(DomView, Seq<DomView>)>::empty(),
{
    let sn = span_node(i);
    let tx = seq![DomView::Text(i.text@)];
    assert(!sel_matches(sel, sn, ch));
    assert(!sel_matches(sel, DomView::Text(i.text@), ch.push(sn)));
    assert(select_all(sel, DomView::Text(i.text@), ch.push(sn)) =~= Seq::<(DomView, Seq<DomView>)>::empty());
    assert(tx.drop_last() =~= Seq::<DomView>::empty());
    assert(select_forest(sel, tx.drop_last(), ch.push(sn)) =~= Seq::<(DomView, Seq<DomView>)>::empty());
    assert(select_forest(sel, tx, ch.push(sn)) =~= Seq::<(DomView, Seq<DomView>)>::empty());
    assert(select_all(sel, sn, ch) =~= Seq::<(DomView, Seq<DomView>)>::empty());
}

proof fn lemma_forest_none(sel: Sel, s: Seq<DomView>, ch: Seq<DomView>)
    requires
        forall|i: int| 0 <= i < s.len() ==> select_all(sel, #[trigger] s[i], ch) == Seq::<(DomView, Seq<DomView>)>::empty(),
    ensures
        select_forest(sel, s, ch) == Seq::<(DomView, Seq<DomView>)>::empty(),
    decreases s.len(),
{
    if s.len() > 0 {
        assert forall|i: int| 0 <= i < s.drop_last().len() implies select_all(sel, #[trigger] s.drop_last()[i], ch)
            == Seq::<(DomView, Seq<DomView>)>::empty() by {
            assert(s.drop_last()[i] == s[i]);
        }
        lemma_forest_none(sel, s.drop_last(), ch);
        assert(select_all(sel, s[s.len() - 1], ch) == Seq::<(DomView, Seq<DomView>)>::empty());
        assert(select_forest(sel, s, ch) =~= Seq::<(DomView, Seq<DomView>)>::empty());
    }
}

proof fn lemma_forest_each(sel: Sel, s: Seq<DomView>, ch: Seq<DomView>)
    requires
        forall|i: int| 0 <= i < s.len() ==> select_all(sel, #[trigger] s[i], ch) == seq![(s[i], ch)],
    ensures
        select_forest(sel, s, ch) == s.map_values(|x: DomView| (x, ch)),
    decreases s.len(),
{
    if s.len() == 0 {
        assert(s.map_values(|x: DomView| (x, ch)) =~= Seq::<(DomView, Seq<DomView>)>::empty());
    } else {
        assert forall|i: int| 0 <= i < s.drop_last().len() implies select_all(sel, #[trigger] s.drop_last()[i], ch)
            == seq![(s.drop_last()[i], ch)] by {
            assert(s.drop_last()[i] == s[i]);
        }
        lemma_forest_each(sel, s.drop_last(), ch);
        assert(select_all(sel, s[s.len() - 1], ch) == seq![(s[s.len() - 1], ch)]);
        assert(select_forest(sel, s, ch) =~= s.map_values(|x: DomView| (x, ch)));
    }
}

proof fn lemma_forest_first(sel: Sel, s: Seq<DomView>, ch: Seq<DomView>)
    requires
        s.len() > 0,
        select_all(sel, s[0], ch).len() > 0,
    ensures
        select_forest(sel, s, ch).len() > 0,
        select_forest(sel, s, ch)[0] == select_all(sel, s[0], ch)[0],
    decreases s.len(),
{
    if s.len() == 1 {
        assert(s.drop_last() =~= Seq::<DomView>::empty());
        assert(select_forest(sel, s.drop_last(), ch) =~= Seq::<(DomView, Seq<DomView>)>::empty());
        assert(select_forest(sel, s, ch) =~= select_all(sel, s[0], ch));
    } else {
        assert(s.drop_last()[0] == s[0]);
        lemma_forest_first(sel, s.drop_last(), ch);
    }
}

/// The spans of pieces that read back give the pieces, and hold no table
/// part.
proof fn lemma_spans_read(v: Seq<InlineContent>, ch: Seq<DomView>)
    requires
        plain_chain(ch),
        pieces_read_back(v),
    ensures
        forest_inline(span_nodes(v), ch) == inlines_view(v),
        forall|sel: Sel| tag_not_span(sel) ==> select_forest(sel, span_nodes(v), ch)
            == Seq::<(DomView, Seq<DomView>)>::empty(),
    decreases v.len(),
{
    if v.len() == 0 {
        assert(span_nodes(v) =~= Seq::<DomView>::empty());
        assert(inlines_view(v) =~= Seq::<InlineView>::empty());
    } else {
        let vl = v.drop_last();
        assert forall|j: int| 0 <= j < vl.len() implies (#[trigger] vl[j]).styles.wf() && !all_ws(vl[j].text@) by {
            assert(vl[j] == v[j]);
        }
        lemma_spans_read(vl, ch);
        let i = v.last();
        assert(i == v[v.len() - 1]);
        lemma_span_facts(i);
        let sn = span_node(i);
        assert(span_nodes(v).drop_last() =~= span_nodes(vl));
        assert(span_nodes(v).last() == sn);
        let tx = seq![DomView::Text(i.text@)];
        assert(tx.drop_last() =~= Seq::<DomView>::empty());
        assert(tx.last() == DomView::Text(i.text@));
        assert(!all_ws(i.text@));
        let sch = ch.push(sn);
        assert(sch.drop_last() =~= ch);
        assert(sch.last() == sn);
        lemma_upward_plain(ch, i.styles.pairs());
        assert(ancestor_styles(sch) == i.styles.pairs());
        assert(forest_inline(tx.drop_last(), sch) =~= Seq::<InlineView>::empty());
        assert(forest_inline(tx, sch) =~= seq![InlineView { text: i.text@, styles: i.styles.pairs() }]);
        assert(node_inline(sn, ch) == forest_inline(tx, sch));
        assert(inlines_view(v) =~= inlines_view(vl).push(i@));
        let s = span_nodes(v);
        assert(forest_inline(s, ch) == forest_inline(s.drop_last(), ch) + node_inline(sn, ch));
        assert forall|sel: Sel| tag_not_span(sel) implies select_forest(sel, span_nodes(v), ch)
            == Seq::<(DomView, Seq<DomView>)>::empty() by {
            lemma_span_select(i, sel, ch);
            assert(select_forest(sel, s, ch) =~= select_forest(sel, s.drop_last(), ch) + select_all(sel, sn, ch));
        }
    }
}

/// A table cell reads back as its pieces.
proof fn lemma_cell_read(cell: Seq<InlineContent>, ch: Seq<DomView>)
    requires
        plain_chain(ch),
        pieces_read_back(cell),
    ensures
        node_inline(cell_node(cell), ch) == inlines_view(cell),
        select_all(Sel::Tag("td"), cell_node(cell), ch) == seq![(cell_node(cell), ch)],
        select_all(Sel::Tag("tr"), cell_node(cell), ch) == Seq::<(DomView, Seq<DomView>)>::empty(),
{
    reveal_strlit("td");
    reveal_strlit("tr");
    reveal_strlit("div");
    reveal_strlit("span");
    reveal_strlit("img");
    reveal_strlit("br");
    reveal_strlit("hr");
    lemma_plain_names();
    let cd = element("div"@, one_attr("class"@, "bn-table-cell-content"@), span_nodes(cell));
    let td = cell_node(cell);
    assert(td == element("td"@, Seq::empty(), seq![cd]));
    lemma_one_attr_plain("class"@, "bn-table-cell-content"@);
    assert(no_style_keys(Seq::<(Seq<char>, Seq<char>)>::empty()));
    assert(lookup(Seq::<(Seq<char>, Seq<char>)>::empty(), "data-style"@) is None);
    lemma_plain_element("td"@, Seq::empty(), seq![cd]);
    lemma_plain_element("div"@, one_attr("class"@, "bn-table-cell-content"@), span_nodes(cell));
    let tdch = ch.push(td);
    lemma_plain_push(ch, td);
    lemma_plain_push(tdch, cd);
    lemma_spans_read(cell, tdch.push(cd));
    assert("div"@[0] != "img"@[0]);
    assert("td"@[1] != "tr"@[1]);
    assert(!skipped_element(cd));
    let one = seq![cd];
    assert(one.drop_last() =~= Seq::<DomView>::empty());
    assert(forest_inline(one.drop_last(), tdch) =~= Seq::<InlineView>::empty());
    assert(forest_inline(one, tdch) =~= node_inline(cd, tdch));
    assert(node_inline(td, ch) == forest_inline(one, tdch));
    let tr_sel = Sel::Tag("tr");
    let td_sel = Sel::Tag("td");
    assert(tag_not_span(tr_sel));
    assert(tag_not_span(td_sel));
    assert(select_all(tr_sel, cd, tdch) =~= select_forest(tr_sel, span_nodes(cell), tdch.push(cd)));
    assert(select_all(td_sel, cd, tdch) =~= select_forest(td_sel, span_nodes(cell), tdch.push(cd)));
    assert(select_forest(tr_sel, one.drop_last(), tdch) =~= Seq::<(DomView, Seq<DomView>)>::empty());
    assert(select_forest(td_sel, one.drop_last(), tdch) =~= Seq::<(DomView, Seq<DomView>)>::empty());
    assert(select_forest(tr_sel, one, tdch) =~= Seq::<(DomView, Seq<DomView>)>::empty());
    assert(select_forest(td_sel, one, tdch) =~= Seq::<(DomView, Seq<DomView>)>::empty());
    assert(select_all(tr_sel, td, ch) =~= Seq::<(DomView, Seq<DomView>)>::empty());
    assert(select_all(td_sel, td, ch) =~= seq![(td, ch)]);
}

/// The pieces of every cell of a table read back.
pub open spec fn cells_read_back(t: TableContent) -> bool {
    forall|r: int, c: int|
        0 <= r < t.rows@.len() && 0 <= c < t.rows@[r].cells@.len() ==> pieces_read_back(
            #[trigger] t.rows@[r].cells@[c]@,
        )
}

/// A table row reads back as the row.
proof fn lemma_row_read(r: TableRow, ch: Seq<DomView>)
    requires
        plain_chain(ch),
        forall|c: int| 0 <= c < r.cells@.len() ==> pieces_read_back(#[trigger] r.cells@[c]@),
    ensures
        table_row_view((row_node(r), ch)) == row_view(r),
        select_all(Sel::Tag("tr"), row_node(r), ch) == seq![(row_node(r), ch)],
        adds_no_style(row_node(r)),
{
    reveal_strlit("tr");
    reveal_strlit("td");
    let rn = row_node(r);
    let cells = r.cells@.map_values(|c: Vec<InlineContent>| cell_node(c@));
    assert(rn == element("tr"@, Seq::empty(), cells));
    assert(no_style_keys(Seq::<(Seq<char>, Seq<char>)>::empty()));
    assert(lookup(Seq::<(Seq<char>, Seq<char>)>::empty(), "data-style"@) is None);
    lemma_plain_element("tr"@, Seq::empty(), cells);
    let rch = ch.push(rn);
    lemma_plain_push(ch, rn);
    assert forall|i: int| 0 <= i < cells.len() implies select_all(Sel::Tag("td"), #[trigger] cells[i], rch)
        == seq![(cells[i], rch)] && select_all(Sel::Tag("tr"), cells[i], rch) == Seq::<(DomView, Seq<DomView>)>::empty()
        && node_inline(cells[i], rch) == inlines_view(r.cells@[i]@) by {
        assert(pieces_read_back(r.cells@[i]@));
        lemma_cell_read(r.cells@[i]@, rch);
    }
    lemma_forest_each(Sel::Tag("td"), cells, rch);
    lemma_forest_none(Sel::Tag("tr"), cells, rch);
    assert("td"@[1] != "tr"@[1]);
    assert(select_all(Sel::Tag("td"), rn, ch) =~= select_forest(Sel::Tag("td"), cells, rch));
    assert(select_all(Sel::Tag("tr"), rn, ch) =~= seq![(rn, ch)]);
    let tds = select_all(Sel::Tag("td"), rn, ch);
    assert(tds.map_values(|td: (DomView, Seq<DomView>)| node_inline(td.0, td.1)) =~= row_view(r).cells);
}

/// Column widths as they are read back: kept when `serde_json` reads them
/// as a list of optional numbers, else `[]`.
pub open spec fn widths_read(w: Seq<char>) -> Seq<char> {
    if json_number_list(w) {
        w
    } else {
        "[]"@
    }
}

/// A table reads back as the table, its widths as `widths_read` gives
/// them.
proof fn lemma_table_read(t: TableContent, ch: Seq<DomView>)
    requires
        plain_chain(ch),
        cells_read_back(t),
    ensures
        adds_no_style(table_node(t)),
        attr_of(table_node(t), "data-type"@) == Some(t.content_type@),
        table_content_view(table_node(t), ch, t.content_type@) == (TableView {
            content_type: t.content_type@,
            column_widths: widths_read(t.column_widths@),
            rows: t.rows@.map_values(|r: TableRow| row_view(r)),
        }),
        lowercase_name(table_node(t)) == "table"@,
{
    reveal_strlit("table");
    reveal_strlit("tr");
    reveal_strlit("class");
    reveal_strlit("data-type");
    reveal_strlit("data-column-widths");
    reveal_strlit("data-style");
    reveal_strlit("data-style-");
    lemma_plain_names();
    let one = one_attr("class"@, "bn-table"@);
    lemma_one_attr_plain("class"@, "bn-table"@);
    assert("class"@ != "data-type"@);
    assert(forall|j: int| 0 <= j < one.len() ==> one[j].0 != "data-type"@);
    lemma_insert_absent(one, "data-type"@, t.content_type@);
    let two = insert_pair(one, "data-type"@, t.content_type@);
    assert(two =~= seq![("class"@, "bn-table"@), ("data-type"@, t.content_type@)]);
    assert("data-column-widths"@.len() == 18);
    assert(forall|j: int| 0 <= j < two.len() ==> two[j].0 != "data-column-widths"@);
    lemma_insert_absent(two, "data-column-widths"@, t.column_widths@);
    let attrs = table_attrs(t);
    assert(attrs =~= seq![
        ("class"@, "bn-table"@),
        ("data-type"@, t.content_type@),
        ("data-column-widths"@, t.column_widths@),
    ]);
    assert(attrs[0].0 != "data-type"@);
    assert(lookup(attrs, "data-type"@) == lookup(attrs.drop_first(), "data-type"@));
    assert(attrs.drop_first()[0] == ("data-type"@, t.content_type@));
    assert(lookup(attrs, "data-column-widths"@) == lookup(attrs.drop_first(), "data-column-widths"@));
    assert(lookup(attrs.drop_first(), "data-column-widths"@) == lookup(attrs.drop_first().drop_first(), "data-column-widths"@));
    assert(attrs.drop_first().drop_first()[0] == ("data-column-widths"@, t.column_widths@));
    assert(lookup(attrs, "data-column-widths"@) == Some(t.column_widths@));
    assert forall|j: int| 0 <= j < attrs.len() implies attrs[j].0 != "data-style"@ by {
        assert("data-style"@.len() == 10);
        assert("class"@.len() == 5);
        assert("data-type"@.len() == 9);
    }
    lemma_lookup_none(attrs, "data-style"@);
    assert forall|j: int| 0 <= j < attrs.len() implies !seq_starts_with(#[trigger] attrs[j].0, style_prefix()) by {
        if j == 1 {
            assert("data-type"@.len() == 9);
        } else if j == 2 {
            assert(attrs[j].0.take(11)[5] == 'c');
        }
    }
    let rows = t.rows@.map_values(|r: TableRow| row_node(r));
    let tn = table_node(t);
    assert(tn == element("table"@, attrs, rows));
    lemma_plain_element("table"@, attrs, rows);
    let tch = ch.push(tn);
    lemma_plain_push(ch, tn);
    assert forall|i: int| 0 <= i < rows.len() implies select_all(Sel::Tag("tr"), #[trigger] rows[i], tch)
        == seq![(rows[i], tch)] && table_row_view((rows[i], tch)) == row_view(t.rows@[i]) by {
        assert forall|c: int| 0 <= c < t.rows@[i].cells@.len() implies pieces_read_back(#[trigger] t.rows@[i].cells@[c]@) by {
            assert(pieces_read_back(t.rows@[i].cells@[c]@));
        }
        lemma_row_read(t.rows@[i], tch);
    }
    lemma_forest_each(Sel::Tag("tr"), rows, tch);
    assert(select_all(Sel::Tag("tr"), tn, ch) =~= select_forest(Sel::Tag("tr"), rows, tch));
    let trs = select_all(Sel::Tag("tr"), tn, ch);
    assert(trs.map_values(|tr: (DomView, Seq<DomView>)| table_row_view(tr)) =~= t.rows@.map_values(
        |r: TableRow| row_view(r),
    ));
    assert(lowercase_name(tn) == "table"@);
}

/// A block whose full HTML reads back: properties well formed and none
/// named with `data-prop-` in front, pieces of inline text (in table cells
/// too) with well-formed styles and text that is not only white space, and
/// children that read back.
pub open spec fn reads_back(b: Block) -> bool
    decreases b,
{
    &&& b.props.wf()
    &&& forall|j: int|
        0 <= j < b.props.pairs().len() ==> !seq_starts_with(#[trigger] b.props.pairs()[j].0, "data-prop-"@)
    &&& match b.content {
        BlockContent::Inline(v) => pieces_read_back(v@),
        BlockContent::Table(t) => cells_read_back(t),
        BlockContent::Empty => true,
    }
    &&& forall|i: int| 0 <= i < b.children@.len() ==> reads_back(#[trigger] b.children@[i])
}

/// Content as it is read back from full HTML: a table's widths as
/// `widths_read` gives them, all else as it is.
pub open spec fn content_read(c: ContentView) -> ContentView {
    match c {
        ContentView::Table(t) => ContentView::Table(
            TableView { content_type: t.content_type, column_widths: widths_read(t.column_widths), rows: t.rows },
        ),
        _ => c,
    }
}

/// `a` is `b` read back: the same type, content (see `content_read`) and
/// properties, and children each read back from those of `b`; only the ids
/// may differ.
pub open spec fn read_back_as(a: BlockView, b: Block) -> bool
    decreases b,
{
    &&& a.block_type == b.block_type@
    &&& a.content == content_read(content_view(b.content))
    &&& a.props == b.props.pairs()
    &&& a.children.len() == b.children@.len()
    &&& forall|i: int| 0 <= i < b.children@.len() ==> read_back_as(#[trigger] a.children[i], b.children@[i])
}

/// The content of a block is read back from the first child of its block
/// div, the content div (none when the block has no content).
proof fn lemma_content_read(b: Block, gn: Seq<DomView>, bch: Seq<DomView>)
    requires
        match b.content {
            BlockContent::Inline(v) => pieces_read_back(v@),
            BlockContent::Table(t) => cells_read_back(t),
            BlockContent::Empty => true,
        },
        plain_chain(bch.push(element("div"@, block_attrs(b), content_nodes(b.content) + gn))),
        gn.len() <= 1,
        forall|i: int| 0 <= i < gn.len() ==> !has_class(#[trigger] gn[i], "bn-block-content"@),
    ensures
        container_content((element("div"@, block_attrs(b), content_nodes(b.content) + gn), bch))
            == content_read(content_view(b.content)),
{
    reveal_strlit("div");
    reveal_strlit("class");
    reveal_strlit("bn-block-content");
    reveal_strlit("span");
    reveal_strlit("table");
    lemma_class_tokens();
    lemma_plain_names();
    let cn = content_nodes(b.content);
    let s = cn + gn;
    let bdiv = element("div"@, block_attrs(b), s);
    let cdch = bch.push(bdiv);
    assert(children_of(bdiv) == s);
    match b.content {
        BlockContent::Inline(v) => {
            let one_cd = one_attr("class"@, "bn-block-content"@);
            let cd = element("div"@, one_cd, span_nodes(v@));
            assert(cn == seq![cd]);
            assert(s[0] == cd);
            lemma_one_attr_plain("class"@, "bn-block-content"@);
            lemma_plain_element("div"@, one_cd, span_nodes(v@));
            lemma_plain_push(cdch, cd);
            lemma_spans_read(v@, cdch.push(cd));
            assert(has_class(cd, "bn-block-content"@));
            assert(content_child(s) == Some(cd));
            let tsel = Sel::Tag("table");
            assert(tag_not_span(tsel));
            assert(select_all(tsel, cd, cdch) =~= select_forest(tsel, span_nodes(v@), cdch.push(cd)));
            assert(select_first(tsel, cd, cdch) is None);
        },
        BlockContent::Table(t) => {
            let tn = table_node(t);
            let one_cd = one_attr("class"@, "bn-block-content"@);
            let cd = element("div"@, one_cd, seq![tn]);
            assert(cn == seq![cd]);
            assert(s[0] == cd);
            lemma_one_attr_plain("class"@, "bn-block-content"@);
            lemma_plain_element("div"@, one_cd, seq![tn]);
            lemma_plain_push(cdch, cd);
            let tch = cdch.push(cd);
            lemma_table_read(t, tch);
            assert(has_class(cd, "bn-block-content"@));
            assert(content_child(s) == Some(cd));
            let tsel = Sel::Tag("table");
            assert(select_all(tsel, tn, tch)[0] == (tn, tch));
            lemma_forest_first(tsel, seq![tn], tch);
            assert(select_all(tsel, cd, cdch) =~= select_forest(tsel, seq![tn], tch));
            assert(select_first(tsel, cd, cdch) == Some((tn, tch)));
        },
        BlockContent::Empty => {
            assert(s =~= gn);
            if gn.len() == 1 {
                assert(!has_class(s[0], "bn-block-content"@));
                assert(s.skip(1) =~= Seq::<DomView>::empty());
                assert(content_child(s.skip(1)) is None);
            }
            assert(content_child(s) is None);
        },
    }
}

/// The full HTML of one block that reads back gives one block, read back
/// from it.
#[verifier::rlimit(40)]
proof fn lemma_block_read(b: Block, cch: Seq<DomView>, ids: Seq<Seq<char>>)
    requires
        reads_back(b),
        plain_chain(cch),
    ensures
        blocks_of(full_block_node(b), cch, ids).len() == 1,
        read_back_as(blocks_of(full_block_node(b), cch, ids)[0], b),
    decreases b, 1nat, 0int,
{
    reveal_strlit("div");
    reveal_strlit("class");
    reveal_strlit("data-type");
    reveal_strlit("data-node-type");
    reveal_strlit("p");
    reveal_strlit("pre");
    reveal_strlit("ul");
    reveal_strlit("ol");
    reveal_strlit("table");
    reveal_strlit("bn-block-container");
    reveal_strlit("bn-block-content");
    reveal_strlit("bn-block-group");
    reveal_strlit("bn-block");
    reveal_strlit("span");
    lemma_plain_names();
    lemma_class_texts();
    lemma_class_tokens();
    b.props.lemma_wf();
    lemma_block_attrs(b);
    let kids = b.children@;
    let cn = content_nodes(b.content);
    let gn: Seq<DomView> = if kids.len() > 0 {
        seq![full_group_node(kids)]
    } else {
        Seq::empty()
    };
    let s = cn + gn;
    let bdiv = element("div"@, block_attrs(b), s);
    let one_c = one_attr("class"@, "bn-block-container"@);
    let c = element("div"@, one_c, seq![bdiv]);
    assert(full_block_node(b) == c);
    lemma_one_attr_plain("class"@, "bn-block-container"@);
    // The container is read as one block whose block div is `bdiv`.
    let bch = cch.push(c);
    assert(!has_class(c, "bn-block"@));
    assert(has_class(bdiv, "bn-block"@));
    assert(select_all(Sel::Class("bn-block"), bdiv, bch)[0] == (bdiv, bch));
    lemma_forest_first(Sel::Class("bn-block"), seq![bdiv], bch);
    assert(select_all(Sel::Class("bn-block"), c, cch) =~= select_forest(Sel::Class("bn-block"), seq![bdiv], bch));
    assert(container_block(c, cch) == Some((bdiv, bch)));
    assert(!class_contains(c, "bn-container"@));
    assert("class"@ != "data-node-type"@);
    lemma_lookup_none(one_c, "data-node-type"@);
    assert(!is_group_div(c));
    assert(class_contains(c, "bn-block-container"@));
    assert(!has_class(c, "bn-block-group"@));
    assert(lowercase_name(c) == "div"@);
    assert(read_as(c, cch) == ReadAs::Container);
    // Nothing up to the block's content adds a style.
    lemma_plain_element("div"@, one_c, seq![bdiv]);
    lemma_plain_push(cch, c);
    lemma_block_div_plain(b, s);
    let cdch = bch.push(bdiv);
    lemma_plain_push(bch, bdiv);
    assert forall|i: int| 0 <= i < gn.len() implies !has_class(#[trigger] gn[i], "bn-block-content"@) by {
        assert(i == 0);
        assert(gn[0] == full_group_node(kids));
        lemma_one_attr_plain("class"@, "bn-block-group"@);
    }
    lemma_content_read(b, gn, bch);
    // The children.
    let bound = node_size(c);
    assert(children_of(bdiv) == s);
    assert(node_size(bdiv) < bound) by {
        lemma_child_smaller(c, 0);
    }
    let gb = group_blocks(s, cdch, ids.skip(1), bound);
    assert(cn.len() <= 1);
    assert forall|i: int| 0 <= i < cn.len() implies !has_class(#[trigger] cn[i], "bn-block-group"@) by {
        assert(i == 0);
    }
    lemma_no_groups(cn, cdch, ids.skip(1).take(0), bound);
    lemma_no_groups(cn, cdch, ids.skip(1), bound);
    if kids.len() > 0 {
        let nodes = full_block_nodes(kids);
        let one_g = one_attr("class"@, "bn-block-group"@);
        let g = full_group_node(kids);
        assert(g == element("div"@, one_g, nodes));
        lemma_one_attr_plain("class"@, "bn-block-group"@);
        lemma_plain_element("div"@, one_g, nodes);
        let gch = cdch.push(g);
        lemma_plain_push(cdch, g);
        assert(has_class(g, "bn-block-group"@));
        assert(s.drop_last() =~= cn);
        assert(s.last() == g);
        assert(s[s.len() - 1] == g);
        assert(node_size(g) < node_size(bdiv)) by {
            lemma_child_smaller(bdiv, s.len() - 1);
        }
        assert forall|i: int| 0 <= i < kids.len() implies node_size(#[trigger] nodes[i]) < bound by {
            assert(children_of(g)[i] == nodes[i]);
            lemma_child_smaller(g, i);
        }
        assert forall|i: int| 0 <= i < kids.len() implies reads_back(#[trigger] kids[i]) by {}
        lemma_blocks_read(kids, gch, ids.skip(1), bound, kids.len() as int);
        assert(nodes.take(kids.len() as int) =~= nodes);
        assert(ids.skip(1).skip(0) =~= ids.skip(1));
        assert(children_of(g) == nodes);
        assert(gb == group_blocks(cn, cdch, ids.skip(1).take(0), bound) + children_blocks(nodes, gch, ids.skip(1), bound));
        assert(gb == children_blocks(nodes, gch, ids.skip(1), bound));
    } else {
        assert(s =~= cn);
        assert(gb =~= Seq::<BlockView>::empty());
    }
    let r = blocks_of(c, cch, ids);
    assert(r == seq![container_view((bdiv, bch), ids[0], gb)]);
    assert(r[0].children == gb);
}

proof fn lemma_no_groups(s: Seq<DomView>, ch: Seq<DomView>, ids: Seq<Seq<char>>, bound: nat)
    requires
        forall|i: int| 0 <= i < s.len() ==> !has_class(#[trigger] s[i], "bn-block-group"@),
    ensures
        group_count(s, ch, bound) == 0,
        group_blocks(s, ch, ids, bound) == Seq::<BlockView>::empty(),
    decreases s.len(),
{
    if s.len() > 0 {
        assert forall|i: int| 0 <= i < s.drop_last().len() implies !has_class(#[trigger] s.drop_last()[i], "bn-block-group"@) by {
            assert(s.drop_last()[i] == s[i]);
        }
        lemma_no_groups(s.drop_last(), ch, ids.take(0), bound);
        assert(!has_class(s[s.len() - 1], "bn-block-group"@));
        assert(group_blocks(s, ch, ids, bound) =~= Seq::<BlockView>::empty());
    }
}

/// The full HTML of blocks that read back, read from the first `k`, gives
/// `k` blocks, each read back from its own.
proof fn lemma_blocks_read(blocks: Seq<Block>, gch: Seq<DomView>, ids: Seq<Seq<char>>, bound: nat, k: int)
    requires
        0 <= k <= blocks.len(),
        forall|i: int| 0 <= i < blocks.len() ==> reads_back(#[trigger] blocks[i]),
        forall|i: int| 0 <= i < blocks.len() ==> node_size(#[trigger] full_block_nodes(blocks)[i]) < bound,
        plain_chain(gch),
    ensures
        children_blocks(full_block_nodes(blocks).take(k), gch, ids, bound).len() == k,
        forall|i: int|
            0 <= i < k ==> read_back_as(
                #[trigger] children_blocks(full_block_nodes(blocks).take(k), gch, ids, bound)[i],
                blocks[i],
            ),
    decreases blocks, 0nat, k,
{
    let s = full_block_nodes(blocks);
    if k == 0 {
        assert(s.take(0) =~= Seq::<DomView>::empty());
    } else {
        let sk = s.take(k);
        let kc = crate::html_parser::children_count(s.take(k - 1), gch, bound);
        lemma_blocks_read(blocks, gch, ids.take(kc as int), bound, k - 1);
        assert(sk.drop_last() =~= s.take(k - 1));
        assert(sk.last() == s[k - 1]);
        assert(s[k - 1] == full_block_node(blocks[k - 1]));
        assert(node_size(s[k - 1]) < bound);
        assert(!crate::dom_query::is_ws_node(s[k - 1]));
        lemma_block_read(blocks[k - 1], gch, ids.skip(kc as int));
        let prev = children_blocks(s.take(k - 1), gch, ids.take(kc as int), bound);
        let one = blocks_of(s[k - 1], gch, ids.skip(kc as int));
        let all = children_blocks(sk, gch, ids, bound);
        assert(all == prev + one);
        assert forall|i: int| 0 <= i < k implies read_back_as(#[trigger] all[i], blocks[i]) by {
            if i < k - 1 {
                assert(all[i] == prev[i]);
            } else {
                assert(all[i] == one[0]);
            }
        }
    }
}

/// Full HTML can be read back without loss: reading the block group that
/// `blocks_to_full_html` builds for blocks (the tree, before it is written
/// out as text), where nothing around it adds a style, gives a block read
/// back from each (see `read_back_as`): the same type, content, properties
/// and children, at every depth; only the ids are new. This holds of every
/// list of blocks that reads back (see `reads_back`), the empty list
/// included.
pub proof fn lemma_full_html_reads_back(blocks: Seq<Block>, chain: Seq<DomView>, ids: Seq<Seq<char>>)
    requires
        forall|i: int| 0 <= i < blocks.len() ==> reads_back(#[trigger] blocks[i]),
        plain_chain(chain),
    ensures
        blocks_of(full_group_node(blocks), chain, ids).len() == blocks.len(),
        forall|i: int|
            0 <= i < blocks.len() ==> read_back_as(
                #[trigger] blocks_of(full_group_node(blocks), chain, ids)[i],
                blocks[i],
            ),
{
    reveal_strlit("div");
    reveal_strlit("class");
    reveal_strlit("data-style");
    reveal_strlit("data-node-type");
    reveal_strlit("p");
    reveal_strlit("pre");
    reveal_strlit("ul");
    reveal_strlit("ol");
    reveal_strlit("table");
    reveal_strlit("h1");
    reveal_strlit("h2");
    reveal_strlit("h3");
    reveal_strlit("h4");
    reveal_strlit("h5");
    reveal_strlit("h6");
    lemma_plain_names();
    lemma_class_texts();
    let one_g = one_attr("class"@, "bn-block-group"@);
    lemma_one_attr_plain("class"@, "bn-block-group"@);
    let g = full_group_node(blocks);
    let kids = full_block_nodes(blocks);
    assert(g == element("div"@, one_g, kids));
    assert("class"@ != "data-node-type"@);
    lemma_lookup_none(one_g, "data-node-type"@);
    assert(!class_contains(g, "bn-container"@));
    assert(!is_group_div(g));
    assert(!class_contains(g, "bn-block-container"@));
    assert(lowercase_name(g) == "div"@);
    assert(!is_heading_name("div"@));
    assert("div"@[0] != "pre"@[0]);
    lemma_class_tokens();
    assert(has_class(g, "bn-block-group"@));
    assert(read_as(g, chain) == ReadAs::Children);
    lemma_plain_element("div"@, one_g, kids);
    lemma_plain_push(chain, g);
    assert forall|i: int| 0 <= i < blocks.len() implies node_size(#[trigger] kids[i]) < node_size(g) by {
        assert(children_of(g)[i] == kids[i]);
        lemma_child_smaller(g, i);
    }
    lemma_blocks_read(blocks, chain.push(g), ids, node_size(g), blocks.len() as int);
    assert(kids.take(blocks.len() as int) =~= kids);
}

} // verus!
