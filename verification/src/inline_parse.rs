use vstd::prelude::*;
use vstd::string::*;

use crate::blocks::{inlines_view, InlineContent, InlineView};
use crate::dom::{dom_view, doms_view, DomNode, DomView};
use crate::dom_query::{attr, attr_of, chain_view, child_chain, lname, lower_name, node_children};
use crate::string_map::{insert_pair, lemma_lookup_insert, lookup, StringMap};
use crate::text::{
    all_ws, contains, is_blank, occurs_at_exec, seq_contains, seq_starts_with, str_equal, to_owned,
    trim_end, trim_end_str, trim_start, trim_start_str,
};

verus! {

/// A map of styles with `key` set to `true` when `on` holds.
pub open spec fn style_if(m: Seq<(Seq<char>, Seq<char>)>, on: bool, key: Seq<char>) -> Seq<(Seq<char>, Seq<char>)> {
    if on {
        insert_pair(m, key, "true"@)
    } else {
        m
    }
}

/// The prefix of an attribute that sets one style.
pub open spec fn style_prefix() -> Seq<char> {
    "data-style-"@
}

/// The styles set by the `data-style-*` attributes among `attrs`, in order,
/// onto `m`: each names its style by what follows the prefix and gives its
/// value, unless that style is set already (the innermost element wins).
pub open spec fn prefixed_styles(m: Seq<(Seq<char>, Seq<char>)>, attrs: Seq<(Seq<char>, Seq<char>)>) -> Seq<(Seq<char>, Seq<char>)>
    decreases attrs.len(),
{
    if attrs.len() == 0 {
        m
    } else {
        let m0 = prefixed_styles(m, attrs.drop_last());
        let k = attrs.last().0;
        if seq_starts_with(k, style_prefix()) && lookup(m0, k.skip(style_prefix().len() as int)) is None {
            insert_pair(m0, k.skip(style_prefix().len() as int), attrs.last().1)
        } else {
            m0
        }
    }
}

/// The styles that an element adds: those its `data-style` attribute names
/// (`bold`, `italic`, `underline`, `code`, in that order, each found
/// anywhere in the value), then those its `data-style-*` attributes set
/// (see `prefixed_styles`), then the one its lower-cased name stands for
/// (`strong` and `b` bold, `em` and `i` italic, `u` underline, `code` code).
pub open spec fn element_styles(m: Seq<(Seq<char>, Seq<char>)>, e: DomView) -> Seq<(Seq<char>, Seq<char>)> {
    match e {
        DomView::Element { name, attrs, children } => {
            let m1 = prefixed_styles(data_styles(m, attrs), attrs);
            let n = lowercase_name(e);
            if n == "strong"@ || n == "b"@ {
                insert_pair(m1, "bold"@, "true"@)
            } else if n == "em"@ || n == "i"@ {
                insert_pair(m1, "italic"@, "true"@)
            } else if n == "u"@ {
                insert_pair(m1, "underline"@, "true"@)
            } else if n == "code"@ {
                insert_pair(m1, "code"@, "true"@)
            } else {
                m1
            }
        },
        _ => m,
    }
}

/// The styles that a `data-style` attribute among `attrs` names, onto `m`.
pub open spec fn data_styles(m: Seq<(Seq<char>, Seq<char>)>, attrs: Seq<(Seq<char>, Seq<char>)>) -> Seq<(Seq<char>, Seq<char>)> {
    match lookup(attrs, "data-style"@) {
        Some(v) => style_if(
            style_if(
                style_if(style_if(m, seq_contains(v, "bold"@), "bold"@), seq_contains(v, "italic"@), "italic"@),
                seq_contains(v, "underline"@),
                "underline"@,
            ),
            seq_contains(v, "code"@),
            "code"@,
        ),
        None => m,
    }
}

/// The lower-cased name of an element (the empty text for other nodes).
pub open spec fn lowercase_name(n: DomView) -> Seq<char> {
    match lname(n) {
        Some(v) => v,
        None => Seq::empty(),
    }
}

/// The styles gathered from the nodes of `chain`, innermost first, onto `m`.
pub open spec fn styles_upward(chain: Seq<DomView>, m: Seq<(Seq<char>, Seq<char>)>) -> Seq<(Seq<char>, Seq<char>)>
    decreases chain.len(),
{
    if chain.len() == 0 {
        m
    } else {
        styles_upward(chain.drop_last(), element_styles(m, chain.last()))
    }
}

/// The styles of a text whose ancestors are `chain` (outermost first).
pub open spec fn ancestor_styles(chain: Seq<DomView>) -> Seq<(Seq<char>, Seq<char>)> {
    styles_upward(chain, Seq::empty())
}

/// The elements whose content is not read as text.
pub open spec fn skipped_element(n: DomView) -> bool {
    lname(n) == Some("img"@) || lname(n) == Some("br"@) || lname(n) == Some("hr"@)
}

/// The inline text under a node: each text child that is not only white
/// space, with the styles of its ancestors, and the inline text of each
/// element child but `img`, `br` and `hr`, in order.
pub open spec fn node_inline(n: DomView, chain: Seq<DomView>) -> Seq<InlineView>
    decreases n,
{
    match n {
        DomView::Element { name, attrs, children } => forest_inline(children, chain.push(n)),
        DomView::Text(_) => Seq::empty(),
        DomView::Other(c) => forest_inline(c, chain.push(n)),
    }
}

/// The inline text of a sequence of siblings whose ancestors are `chain`.
pub open spec fn forest_inline(s: Seq<DomView>, chain: Seq<DomView>) -> Seq<InlineView>
    decreases s,
{
    if s.len() == 0 {
        Seq::empty()
    } else {
        forest_inline(s.drop_last(), chain) + match s.last() {
            DomView::Text(t) => if all_ws(t) {
                Seq::empty()
            } else {
                seq![InlineView { text: t, styles: ancestor_styles(chain) }]
            },
            DomView::Element { .. } => if skipped_element(s.last()) {
                Seq::empty()
            } else {
                node_inline(s.last(), chain)
            },
            DomView::Other(_) => Seq::empty(),
        }
    }
}

/// `s` with `p` taken off its front as many times as it is there
/// (`str::trim_start_matches`).
pub open spec fn strip_all(s: Seq<char>, p: Seq<char>) -> Seq<char>
    decreases s.len(),
{
    if p.len() > 0 && seq_starts_with(s, p) {
        strip_all(s.skip(p.len() as int), p)
    } else {
        s
    }
}

/// The `data-prop-*` attributes among `attrs`, in order, each named by
/// what follows the prefix (a later one of the same name wins).
pub open spec fn prop_pairs(attrs: Seq<(Seq<char>, Seq<char>)>) -> Seq<(Seq<char>, Seq<char>)>
    decreases attrs.len(),
{
    if attrs.len() == 0 {
        Seq::empty()
    } else {
        let m = prop_pairs(attrs.drop_last());
        let k = attrs.last().0;
        if seq_starts_with(k, "data-prop-"@) {
            insert_pair(m, strip_all(k, "data-prop-"@), attrs.last().1)
        } else {
            m
        }
    }
}

/// The properties of a block read from its element: the `data-prop-*`
/// attributes, and `language` from a non-empty `lang` attribute when no
/// `data-prop-language` gave it.
pub open spec fn block_props_of(n: DomView) -> Seq<(Seq<char>, Seq<char>)> {
    match n {
        DomView::Element { name, attrs, children } => {
            let m = prop_pairs(attrs);
            match lookup(attrs, "lang"@) {
                Some(l) => if lookup(m, "language"@) is None && l.len() > 0 {
                    insert_pair(m, "language"@, l)
                } else {
                    m
                },
                None => m,
            }
        },
        _ => Seq::empty(),
    }
}

/// Inline text from several nodes, each with its ancestors, with the white
/// space trimmed off the front of the first piece and the end of the last.
pub open spec fn nodes_inline(nodes: Seq<(DomView, Seq<DomView>)>) -> Seq<InlineView> {
    trim_pieces(nodes_inline_raw(nodes))
}

pub open spec fn nodes_inline_raw(nodes: Seq<(DomView, Seq<DomView>)>) -> Seq<InlineView>
    decreases nodes.len(),
{
    if nodes.len() == 0 {
        Seq::empty()
    } else {
        nodes_inline_raw(nodes.drop_last()) + node_inline(nodes.last().0, nodes.last().1)
    }
}

/// Trims the front of the first piece of text and the end of the last.
pub open spec fn trim_pieces(c: Seq<InlineView>) -> Seq<InlineView> {
    if c.len() == 0 {
        c
    } else {
        let c1 = c.update(0, InlineView { text: trim_start(c[0].text), styles: c[0].styles });
        c1.update(
            c1.len() - 1,
            InlineView { text: trim_end(c1[c1.len() - 1].text), styles: c1[c1.len() - 1].styles },
        )
    }
}

fn apply_style_if(m: &mut StringMap, on: bool, key: &str)
    ensures
        final(m).pairs() == style_if(old(m).pairs(), on, key@),
{
    if on {
        m.insert(to_owned(key), to_owned("true"));
    }
}

fn apply_prefixed_styles(m: &mut StringMap, attrs: &StringMap)
    ensures
        final(m).pairs() == prefixed_styles(old(m).pairs(), attrs.pairs()),
{
    let ghost a = attrs.pairs();
    let ghost m0 = m.pairs();
    let k = attrs.len();
    let mut i: usize = 0;
    assert(a.take(0) =~= Seq::<(Seq<char>, Seq<char>)>::empty());
    proof {
        reveal_strlit("data-style-");
    }
    while i < k
        invariant
            k == a.len(),
            a == attrs.pairs(),
            i <= k,
            m.pairs() == prefixed_styles(m0, a.take(i as int)),
            style_prefix().len() == 11,
        decreases k - i,
    {
        let key = attrs.key_at(i);
        proof {
            assert(a.take(i + 1).drop_last() =~= a.take(i as int));
            assert(a.take(i + 1).last() == a[i as int]);
        }
        if crate::text::starts_with(key.as_str(), "data-style-") {
            let n = key.unicode_len();
            let name = to_owned(key.as_str().substring_char(11, n));
            assert(name@ =~= key@.skip(11));
            if !m.contains_key(name.as_str()) {
                let value = attrs.value_at(i).clone();
                m.insert(name, value);
            }
        }
        i = i + 1;
    }
    assert(a.take(k as int) =~= a);
}

fn apply_element_styles(m: &mut StringMap, e: &DomNode)
    ensures
        final(m).pairs() == element_styles(old(m).pairs(), e@),
{
    if let DomNode::Element(el) = e {
        match attr(e, "data-style") {
            Some(v) => {
                let b = contains(v.as_str(), "bold");
                apply_style_if(m, b, "bold");
                let i = contains(v.as_str(), "italic");
                apply_style_if(m, i, "italic");
                let u = contains(v.as_str(), "underline");
                apply_style_if(m, u, "underline");
                let c = contains(v.as_str(), "code");
                apply_style_if(m, c, "code");
            },
            None => {},
        }
        apply_prefixed_styles(m, &el.attrs);
        let n = match lower_name(e) {
            Some(v) => v,
            None => String::new(),
        };
        let ns = n.as_str();
        if str_equal(ns, "strong") || str_equal(ns, "b") {
            m.insert(to_owned("bold"), to_owned("true"));
        } else if str_equal(ns, "em") || str_equal(ns, "i") {
            m.insert(to_owned("italic"), to_owned("true"));
        } else if str_equal(ns, "u") {
            m.insert(to_owned("underline"), to_owned("true"));
        } else if str_equal(ns, "code") {
            m.insert(to_owned("code"), to_owned("true"));
        }
    }
}

/// The styles of a text whose ancestors are `chain`.
pub fn styles_for(chain: &Vec<&DomNode>) -> (m: StringMap)
    ensures
        m.pairs() == ancestor_styles(chain_view(chain@)),
{
    let ghost cv = chain_view(chain@);
    let mut m = StringMap::new();
    let mut j = chain.len();
    proof {
        assert(cv.take(j as int) =~= cv);
    }
    while j > 0
        invariant
            j <= chain@.len(),
            cv == chain_view(chain@),
            ancestor_styles(cv) == styles_upward(cv.take(j as int), m.pairs()),
        decreases j,
    {
        let ghost before = m.pairs();
        apply_element_styles(&mut m, chain[j - 1]);
        proof {
            assert(cv.take(j as int).drop_last() =~= cv.take(j - 1));
            assert(cv.take(j as int).last() == dom_view(*chain@[j - 1]));
        }
        j = j - 1;
    }
    m
}

fn is_skipped_exec(n: &DomNode) -> (r: bool)
    ensures
        r == skipped_element(n@),
{
    match lower_name(n) {
        Some(v) => str_equal(v.as_str(), "img") || str_equal(v.as_str(), "br") || str_equal(
            v.as_str(),
            "hr",
        ),
        None => false,
    }
}

proof fn lemma_inlines_view_push(s: Seq<InlineContent>, c: InlineContent)
    ensures
        inlines_view(s.push(c)) == inlines_view(s).push(c@),
{
    assert(inlines_view(s.push(c)) =~= inlines_view(s).push(c@));
}

/// Appends the inline text under a node whose ancestors are `chain`.
pub fn push_node_content(n: &DomNode, chain: &Vec<&DomNode>, out: &mut Vec<InlineContent>)
    ensures
        inlines_view(final(out)@) == inlines_view(old(out)@) + node_inline(n@, chain_view(chain@)),
    decreases *n, 1nat,
{
    match node_children(n) {
        Some(kids) => {
            let cc = child_chain(chain, n);
            push_forest_content(n, kids, &cc, out);
        },
        None => {
            assert(inlines_view(out@) =~= inlines_view(old(out)@) + Seq::<InlineView>::empty());
        },
    }
}

fn push_forest_content(parent: &DomNode, s: &Vec<DomNode>, chain: &Vec<&DomNode>, out: &mut Vec<InlineContent>)
    requires
        forall|i: int| 0 <= i < s@.len() ==> decreases_to!(*parent => s@[i]),
    ensures
        inlines_view(final(out)@) == inlines_view(old(out)@) + forest_inline(doms_view(s@), chain_view(chain@)),
    decreases *parent, 0nat,
{
    let ghost start = inlines_view(out@);
    let ghost sv = doms_view(s@);
    let ghost cv = chain_view(chain@);
    let styles = styles_for(chain);
    let k = s.len();
    let mut i: usize = 0;
    assert(sv.take(0) =~= Seq::<DomView>::empty());
    assert(start + Seq::<InlineView>::empty() =~= start);
    while i < k
        invariant
            k == s@.len(),
            i <= k,
            sv == doms_view(s@),
            cv == chain_view(chain@),
            styles.pairs() == ancestor_styles(cv),
            forall|j: int| 0 <= j < s@.len() ==> decreases_to!(*parent => s@[j]),
            inlines_view(out@) == start + forest_inline(sv.take(i as int), cv),
        decreases k - i,
    {
        let ghost before = inlines_view(out@);
        proof {
            assert(sv.take(i + 1).drop_last() =~= sv.take(i as int));
            assert(sv.take(i + 1).last() == dom_view(s@[i as int]));
        }
        match &s[i] {
            DomNode::Text(t) => {
                if !is_blank(t.as_str()) {
                    let c = InlineContent { text: t.clone(), styles: styles.duplicate() };
                    let ghost ob = out@;
                    out.push(c);
                    proof {
                        lemma_inlines_view_push(ob, c);
                        assert(start + forest_inline(sv.take(i + 1), cv) =~= before + seq![c@]);
                    }
                } else {
                    assert(start + forest_inline(sv.take(i + 1), cv) =~= before);
                }
            },
            DomNode::Element(_) => {
                if !is_skipped_exec(&s[i]) {
                    push_node_content(&s[i], chain, out);
                    assert(start + forest_inline(sv.take(i + 1), cv) =~= before + node_inline(
                        dom_view(s@[i as int]),
                        cv,
                    ));
                } else {
                    assert(start + forest_inline(sv.take(i + 1), cv) =~= before);
                }
            },
            DomNode::Other(_) => {
                assert(start + forest_inline(sv.take(i + 1), cv) =~= before);
            },
        }
        i = i + 1;
    }
    assert(sv.take(k as int) =~= sv);
}

/// The inline text under a node whose ancestors are `chain`.
pub fn parse_single_node_content(n: &DomNode, chain: &Vec<&DomNode>) -> (r: Vec<InlineContent>)
    ensures
        inlines_view(r@) == node_inline(n@, chain_view(chain@)),
{
    let mut out: Vec<InlineContent> = Vec::new();
    assert(inlines_view(out@) =~= Seq::<InlineView>::empty());
    push_node_content(n, chain, &mut out);
    assert(Seq::<InlineView>::empty() + node_inline(n@, chain_view(chain@)) =~= node_inline(
        n@,
        chain_view(chain@),
    ));
    out
}

/// `str::trim_start_matches` for a string pattern.
pub fn strip_all_exec(s: &str, p: &str) -> (r: String)
    ensures
        r@ == strip_all(s@, p@),
{
    let n = s.unicode_len();
    let m = p.unicode_len();
    if m == 0 {
        return to_owned(s);
    }
    let mut i: usize = 0;
    assert(s@.skip(0) =~= s@);
    loop
        invariant
            n == s@.len(),
            m == p@.len(),
            m > 0,
            i <= n,
            strip_all(s@, p@) == strip_all(s@.skip(i as int), p@),
        decreases n - i,
    {
        if m > n - i || !occurs_at_exec(s, p, i) {
            proof {
                if m <= n - i {
                    assert(s@.skip(i as int).take(m as int) =~= s@.subrange(i as int, i + m));
                }
            }
            let r = to_owned(s.substring_char(i, n));
            assert(r@ =~= s@.skip(i as int));
            return r;
        }
        proof {
            assert(s@.skip(i as int).take(m as int) =~= s@.subrange(i as int, i + m));
            assert(s@.skip(i as int).skip(m as int) =~= s@.skip(i + m));
        }
        i = i + m;
    }
}

/// The properties of a block read from its element.
pub fn parse_block_props(n: &DomNode) -> (r: StringMap)
    ensures
        r.pairs() == block_props_of(n@),
{
    let mut props = StringMap::new();
    match n {
        DomNode::Element(e) => {
            let k = e.attrs.len();
            let mut i: usize = 0;
            let ghost a = e.attrs.pairs();
            assert(a.take(0) =~= Seq::<(Seq<char>, Seq<char>)>::empty());
            while i < k
                invariant
                    k == a.len(),
                    a == e.attrs.pairs(),
                    i <= k,
                    props.pairs() == prop_pairs(a.take(i as int)),
                decreases k - i,
            {
                let key = e.attrs.key_at(i);
                proof {
                    assert(a.take(i + 1).drop_last() =~= a.take(i as int));
                    assert(a.take(i + 1).last() == a[i as int]);
                }
                if crate::text::starts_with(key.as_str(), "data-prop-") {
                    let name = strip_all_exec(key.as_str(), "data-prop-");
                    let value = e.attrs.value_at(i).clone();
                    props.insert(name, value);
                }
                i = i + 1;
            }
            assert(a.take(k as int) =~= a);
            if !props.contains_key("language") {
                match e.attrs.get("lang") {
                    Some(l) => {
                        if l.unicode_len() > 0 {
                            props.insert(to_owned("language"), l.clone());
                        }
                    },
                    None => {},
                }
            }
        },
        _ => {
            assert(props.pairs() =~= Seq::<(Seq<char>, Seq<char>)>::empty());
        },
    }
    props
}

fn trim_first_last(c: &mut Vec<InlineContent>)
    ensures
        inlines_view(final(c)@) == trim_pieces(inlines_view(old(c)@)),
{
    let ghost v0 = inlines_view(c@);
    let n = c.len();
    if n == 0 {
        return;
    }
    let first = c.remove(0);
    let t0 = to_owned(trim_start_str(first.text.as_str()));
    let fixed = InlineContent { text: t0, styles: first.styles };
    c.insert(0, fixed);
    let ghost v1 = inlines_view(c@);
    assert(v1 =~= v0.update(0, InlineView { text: trim_start(v0[0].text), styles: v0[0].styles }));
    let last = c.remove(n - 1);
    let t1 = to_owned(trim_end_str(last.text.as_str()));
    let fixed_last = InlineContent { text: t1, styles: last.styles };
    c.push(fixed_last);
    assert(inlines_view(c@) =~= v1.update(
        v1.len() - 1,
        InlineView { text: trim_end(v1[v1.len() - 1].text), styles: v1[v1.len() - 1].styles },
    ));
}

/// A node of a document, held with its ancestors, to read inline text from.
pub struct ContentNode<'a> {
    pub node: &'a DomNode,
    pub chain: Vec<&'a DomNode>,
}

pub open spec fn content_node_view(c: ContentNode) -> (DomView, Seq<DomView>) {
    (dom_view(*c.node), chain_view(c.chain@))
}

/// The inline text of several nodes: the pieces of each in order, with
/// the white space trimmed off the front of the first piece and off the
/// end of the last.
pub fn parse_inline_content(nodes: &Vec<ContentNode>) -> (r: Vec<InlineContent>)
    ensures
        inlines_view(r@) == nodes_inline(nodes@.map_values(|c: ContentNode| content_node_view(c))),
{
    let ghost nv = nodes@.map_values(|c: ContentNode| content_node_view(c));
    let mut out: Vec<InlineContent> = Vec::new();
    let k = nodes.len();
    let mut i: usize = 0;
    assert(inlines_view(out@) =~= Seq::<InlineView>::empty());
    while i < k
        invariant
            k == nodes@.len(),
            i <= k,
            nv == nodes@.map_values(|c: ContentNode| content_node_view(c)),
            inlines_view(out@) == nodes_inline_raw(nv.take(i as int)),
        decreases k - i,
    {
        proof {
            assert(nv.take(i + 1).drop_last() =~= nv.take(i as int));
            assert(nv.take(i + 1).last() == content_node_view(nodes@[i as int]));
        }
        push_node_content(nodes[i].node, &nodes[i].chain, &mut out);
        i = i + 1;
    }
    assert(nv.take(k as int) =~= nv);
    trim_first_last(&mut out);
    out
}


/// The style that an element's name stands for, if any.
pub open spec fn name_style(n: Seq<char>) -> Option<Seq<char>> {
    if n == "strong"@ || n == "b"@ {
        Some("bold"@)
    } else if n == "em"@ || n == "i"@ {
        Some("italic"@)
    } else if n == "u"@ {
        Some("underline"@)
    } else if n == "code"@ {
        Some("code"@)
    } else {
        None
    }
}

/// The element's `data-style` attribute names `key` (one of `bold`,
/// `italic`, `underline`, `code`).
pub open spec fn data_style_names(e: DomView, key: Seq<char>) -> bool {
    (key == "bold"@ || key == "italic"@ || key == "underline"@ || key == "code"@) && match attr_of(
        e,
        "data-style"@,
    ) {
        Some(v) => seq_contains(v, key),
        None => false,
    }
}

proof fn lemma_style_if_keeps(m: Seq<(Seq<char>, Seq<char>)>, on: bool, k: Seq<char>, key: Seq<char>)
    requires
        lookup(m, key) == Some("true"@),
    ensures
        lookup(style_if(m, on, k), key) == Some("true"@),
{
    if on {
        lemma_lookup_insert(m, k, "true"@, key);
    }
}

/// The `data-style-*` attributes never change a style that is set.
proof fn lemma_prefixed_keep(m: Seq<(Seq<char>, Seq<char>)>, attrs: Seq<(Seq<char>, Seq<char>)>, key: Seq<char>)
    requires
        lookup(m, key) is Some,
    ensures
        lookup(prefixed_styles(m, attrs), key) == lookup(m, key),
    decreases attrs.len(),
{
    if attrs.len() > 0 {
        lemma_prefixed_keep(m, attrs.drop_last(), key);
        let m0 = prefixed_styles(m, attrs.drop_last());
        let k = attrs.last().0;
        let name = k.skip(style_prefix().len() as int);
        if seq_starts_with(k, style_prefix()) && lookup(m0, name) is None {
            lemma_lookup_insert(m0, name, attrs.last().1, key);
        }
    }
}

/// An element never takes a style away.
proof fn lemma_element_styles_keep(m: Seq<(Seq<char>, Seq<char>)>, e: DomView, key: Seq<char>)
    requires
        lookup(m, key) == Some("true"@),
    ensures
        lookup(element_styles(m, e), key) == Some("true"@),
{
    match e {
        DomView::Element { name, attrs, children } => {
            let m0 = data_styles(m, attrs);
            let m1 = prefixed_styles(m0, attrs);
            match lookup(attrs, "data-style"@) {
                Some(v) => {
                    let a = style_if(m, seq_contains(v, "bold"@), "bold"@);
                    lemma_style_if_keeps(m, seq_contains(v, "bold"@), "bold"@, key);
                    let b = style_if(a, seq_contains(v, "italic"@), "italic"@);
                    lemma_style_if_keeps(a, seq_contains(v, "italic"@), "italic"@, key);
                    let c = style_if(b, seq_contains(v, "underline"@), "underline"@);
                    lemma_style_if_keeps(b, seq_contains(v, "underline"@), "underline"@, key);
                    lemma_style_if_keeps(c, seq_contains(v, "code"@), "code"@, key);
                },
                None => {},
            }
            lemma_prefixed_keep(m0, attrs, key);
            lemma_lookup_insert(m1, "bold"@, "true"@, key);
            lemma_lookup_insert(m1, "italic"@, "true"@, key);
            lemma_lookup_insert(m1, "underline"@, "true"@, key);
            lemma_lookup_insert(m1, "code"@, "true"@, key);
        },
        _ => {},
    }
}

/// An element adds the style its name stands for and those its
/// `data-style` names.
proof fn lemma_element_styles_add(m: Seq<(Seq<char>, Seq<char>)>, e: DomView, key: Seq<char>)
    requires
        e is Element,
        name_style(lowercase_name(e)) == Some(key) || data_style_names(e, key),
    ensures
        lookup(element_styles(m, e), key) == Some("true"@),
{
    match e {
        DomView::Element { name, attrs, children } => {
            let m0 = data_styles(m, attrs);
            let m1 = prefixed_styles(m0, attrs);
            if data_style_names(e, key) {
                let v = lookup(attrs, "data-style"@)->0;
                let a = style_if(m, seq_contains(v, "bold"@), "bold"@);
                let b = style_if(a, seq_contains(v, "italic"@), "italic"@);
                let c = style_if(b, seq_contains(v, "underline"@), "underline"@);
                if key == "bold"@ {
                    lemma_lookup_insert(m, "bold"@, "true"@, key);
                    lemma_style_if_keeps(a, seq_contains(v, "italic"@), "italic"@, key);
                    lemma_style_if_keeps(b, seq_contains(v, "underline"@), "underline"@, key);
                    lemma_style_if_keeps(c, seq_contains(v, "code"@), "code"@, key);
                } else if key == "italic"@ {
                    lemma_lookup_insert(a, "italic"@, "true"@, key);
                    lemma_style_if_keeps(b, seq_contains(v, "underline"@), "underline"@, key);
                    lemma_style_if_keeps(c, seq_contains(v, "code"@), "code"@, key);
                } else if key == "underline"@ {
                    lemma_lookup_insert(b, "underline"@, "true"@, key);
                    lemma_style_if_keeps(c, seq_contains(v, "code"@), "code"@, key);
                } else {
                    lemma_lookup_insert(c, "code"@, "true"@, key);
                }
                assert(lookup(m0, key) == Some("true"@));
                lemma_prefixed_keep(m0, attrs, key);
            }
            lemma_lookup_insert(m1, "bold"@, "true"@, key);
            lemma_lookup_insert(m1, "italic"@, "true"@, key);
            lemma_lookup_insert(m1, "underline"@, "true"@, key);
            lemma_lookup_insert(m1, "code"@, "true"@, key);
        },
        _ => {},
    }
}

proof fn lemma_styles_upward_keep(chain: Seq<DomView>, m: Seq<(Seq<char>, Seq<char>)>, key: Seq<char>)
    requires
        lookup(m, key) == Some("true"@),
    ensures
        lookup(styles_upward(chain, m), key) == Some("true"@),
    decreases chain.len(),
{
    if chain.len() > 0 {
        lemma_element_styles_keep(m, chain.last(), key);
        lemma_styles_upward_keep(chain.drop_last(), element_styles(m, chain.last()), key);
    }
}

proof fn lemma_styles_upward_add(chain: Seq<DomView>, m: Seq<(Seq<char>, Seq<char>)>, k: int, key: Seq<char>)
    requires
        0 <= k < chain.len(),
        chain[k] is Element,
        name_style(lowercase_name(chain[k])) == Some(key) || data_style_names(chain[k], key),
    ensures
        lookup(styles_upward(chain, m), key) == Some("true"@),
    decreases chain.len(),
{
    let m2 = element_styles(m, chain.last());
    if k == chain.len() - 1 {
        lemma_element_styles_add(m, chain.last(), key);
        lemma_styles_upward_keep(chain.drop_last(), m2, key);
    } else {
        assert(chain.drop_last()[k] == chain[k]);
        lemma_styles_upward_add(chain.drop_last(), m2, k, key);
    }
}

/// Inline styles are kept: a text inside a `strong` or `b` element is
/// bold, inside `em` or `i` italic, inside `u` underlined and inside
/// `code` code, and inside an element whose `data-style` names one of
/// these styles it has that style.
pub proof fn lemma_ancestor_style_kept(chain: Seq<DomView>, k: int, key: Seq<char>)
    requires
        0 <= k < chain.len(),
        chain[k] is Element,
        name_style(lowercase_name(chain[k])) == Some(key) || data_style_names(chain[k], key),
    ensures
        lookup(ancestor_styles(chain), key) == Some("true"@),
{
    lemma_styles_upward_add(chain, Seq::empty(), k, key);
}

} // verus!
