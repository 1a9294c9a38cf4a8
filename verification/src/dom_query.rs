use vstd::prelude::*;
use vstd::string::*;

use crate::dom::{dom_view, doms_view, DomNode, DomView};
use crate::string_map::lookup;
use crate::text::{is_blank, all_ws, occurs_at, occurs_at_exec, str_equal};

verus! {

/// A character that is its own lower case: a lower-case ASCII letter or a
/// digit.
pub open spec fn is_lower_ascii_or_digit(c: char) -> bool {
    ('a' <= c && c <= 'z') || ('0' <= c && c <= '9')
}

/// Every character is a lower-case ASCII letter or a digit.
pub open spec fn lower_ascii_only(s: Seq<char>) -> bool {
    forall|i: int| 0 <= i < s.len() ==> is_lower_ascii_or_digit(#[trigger] s[i])
}

/// The lower-case form that `str::to_lowercase` gives a string that holds
/// other characters than lower-case ASCII letters and digits.
pub uninterp spec fn unicode_lowercase(s: Seq<char>) -> Seq<char>;

/// The lower-case form of a string: itself when it holds only lower-case
/// ASCII letters and digits, else what `str::to_lowercase` gives.
pub open spec fn lowercase(s: Seq<char>) -> Seq<char> {
    if lower_ascii_only(s) {
        s
    } else {
        unicode_lowercase(s)
    }
}

/// `str::to_lowercase`: the Unicode lower-case mapping of each character.
/// The contract says that lower-case ASCII letters and digits, which have
/// no lower-case mapping but themselves, are kept, and of other strings
/// only that the result is their lower-case form.
#[verifier::external_body]
pub fn to_lowercase(s: &str) -> (r: String)
    ensures
        r@ == lowercase(s@),
        !lower_ascii_only(s@) ==> r@ == unicode_lowercase(s@),
{
    s.to_lowercase()
}

/// The children of a node; a text node has none.
pub open spec fn children_of(n: DomView) -> Seq<DomView> {
    match n {
        DomView::Element { name, attrs, children } => children,
        DomView::Text(_) => Seq::empty(),
        DomView::Other(c) => c,
    }
}

/// The value of an attribute of an element; other nodes have none.
pub open spec fn attr_of(n: DomView, k: Seq<char>) -> Option<Seq<char>> {
    match n {
        DomView::Element { name, attrs, children } => lookup(attrs, k),
        _ => None,
    }
}

/// The local name of an element lower-cased; `None` for other nodes.
pub open spec fn lname(n: DomView) -> Option<Seq<char>> {
    match n {
        DomView::Element { name, attrs, children } => Some(lowercase(name)),
        _ => None,
    }
}

/// A text node that holds only white space.
pub open spec fn is_ws_node(n: DomView) -> bool {
    match n {
        DomView::Text(t) => all_ws(t),
        _ => false,
    }
}

/// The text of a node: its own text or that of all its descendants, in
/// tree order (`NodeRef::text_contents`).
pub open spec fn text_of(n: DomView) -> Seq<char>
    decreases n,
{
    match n {
        DomView::Text(t) => t,
        DomView::Element { name, attrs, children } => texts_of(children),
        DomView::Other(c) => texts_of(c),
    }
}

pub open spec fn texts_of(s: Seq<DomView>) -> Seq<char>
    decreases s,
{
    if s.len() == 0 {
        Seq::empty()
    } else {
        texts_of(s.drop_last()) + text_of(s.last())
    }
}

/// The characters that separate class names.
pub open spec fn is_class_sep(c: char) -> bool {
    c == ' ' || c == '\t' || c == '\n' || c == '\r' || c == '\u{0C}'
}

/// The class list `v` holds the class `c`.
pub open spec fn has_class_token(v: Seq<char>, c: Seq<char>) -> bool {
    c.len() > 0 && exists|i: int|
        #![trigger occurs_at(v, c, i)]
        occurs_at(v, c, i) && (i == 0 || is_class_sep(v[i - 1])) && (i + c.len() == v.len()
            || is_class_sep(v[i + c.len()]))
}

/// The selectors that the parser uses.
pub enum Sel {
    /// Elements of a local name.
    Tag(&'static str),
    /// Elements of a class.
    Class(&'static str),
    /// `div` elements whose `data-content` attribute is `true`.
    ContentDiv,
    /// The elements that Markdown text becomes: headings, `p`, `pre`,
    /// `ul`, `ol` and `li`.
    BlockLevel,
}

/// The names that `Sel::BlockLevel` matches.
pub open spec fn block_level_name(n: Seq<char>) -> bool {
    n == "h1"@ || n == "h2"@ || n == "h3"@ || n == "h4"@ || n == "h5"@ || n == "h6"@ || n == "p"@
        || n == "pre"@ || n == "ul"@ || n == "ol"@ || n == "li"@
}

pub open spec fn has_class(n: DomView, c: Seq<char>) -> bool {
    match attr_of(n, "class"@) {
        Some(v) => has_class_token(v, c),
        None => false,
    }
}

pub open spec fn is_tag(n: DomView, t: Seq<char>) -> bool {
    match n {
        DomView::Element { name, attrs, children } => name == t,
        _ => false,
    }
}

/// Whether the node, whose ancestors are `chain` (outermost first), matches.
pub open spec fn sel_matches(sel: Sel, n: DomView, chain: Seq<DomView>) -> bool {
    match sel {
        Sel::Tag(t) => is_tag(n, t@),
        Sel::Class(c) => has_class(n, c@),
        Sel::ContentDiv => is_tag(n, "div"@) && attr_of(n, "data-content"@) == Some("true"@),
        Sel::BlockLevel => match n {
            DomView::Element { name, .. } => block_level_name(name),
            _ => false,
        },
    }
}

/// The node and its descendants that match, in tree order, each with its
/// ancestors.
pub open spec fn select_all(sel: Sel, n: DomView, chain: Seq<DomView>) -> Seq<(DomView, Seq<DomView>)>
    decreases n,
{
    (if sel_matches(sel, n, chain) {
        seq![(n, chain)]
    } else {
        Seq::empty()
    }) + match n {
        DomView::Element { name, attrs, children } => select_forest(sel, children, chain.push(n)),
        DomView::Text(_) => Seq::empty(),
        DomView::Other(c) => select_forest(sel, c, chain.push(n)),
    }
}

pub open spec fn select_forest(sel: Sel, s: Seq<DomView>, chain: Seq<DomView>) -> Seq<(DomView, Seq<DomView>)>
    decreases s,
{
    if s.len() == 0 {
        Seq::empty()
    } else {
        select_forest(sel, s.drop_last(), chain) + select_all(sel, s.last(), chain)
    }
}

/// The first node in tree order that matches.
pub open spec fn select_first(sel: Sel, n: DomView, chain: Seq<DomView>) -> Option<(DomView, Seq<DomView>)> {
    let all = select_all(sel, n, chain);
    if all.len() > 0 {
        Some(all[0])
    } else {
        None
    }
}

/// A node of a document with its ancestors, outermost first.
pub struct Located<'a> {
    pub node: &'a DomNode,
    pub chain: Vec<&'a DomNode>,
}

pub open spec fn chain_view(c: Seq<&DomNode>) -> Seq<DomView> {
    c.map_values(|r: &DomNode| dom_view(*r))
}

pub open spec fn located_view(l: Located) -> (DomView, Seq<DomView>) {
    (dom_view(*l.node), chain_view(l.chain@))
}

pub fn copy_chain<'a>(c: &Vec<&'a DomNode>) -> (r: Vec<&'a DomNode>)
    ensures
        r@ == c@,
{
    let mut r: Vec<&'a DomNode> = Vec::new();
    let n = c.len();
    let mut i: usize = 0;
    while i < n
        invariant
            n == c@.len(),
            i <= n,
            r@ == c@.take(i as int),
        decreases n - i,
    {
        r.push(c[i]);
        assert(r@ =~= c@.take(i + 1));
        i = i + 1;
    }
    assert(c@.take(n as int) =~= c@);
    r
}

/// The chain of a child: the chain of its parent, then the parent.
pub fn child_chain<'a>(c: &Vec<&'a DomNode>, parent: &'a DomNode) -> (r: Vec<&'a DomNode>)
    ensures
        r@ == c@.push(parent),
        chain_view(r@) == chain_view(c@).push(dom_view(*parent)),
{
    let mut r = copy_chain(c);
    r.push(parent);
    assert(chain_view(r@) =~= chain_view(c@).push(dom_view(*parent)));
    r
}

/// The children of a node; `None` for a text node, which has none.
pub fn node_children(n: &DomNode) -> (r: Option<&Vec<DomNode>>)
    ensures
        r is None <==> *n is Text,
        r matches Some(v) ==> doms_view(v@) == children_of(dom_view(*n)),
        r matches Some(v) ==> forall|i: int| 0 <= i < v@.len() ==> decreases_to!(*n => v@[i]),
{
    match n {
        DomNode::Element(e) => {
            proof {
                assert forall|i: int| 0 <= i < e.children@.len() implies decreases_to!(*n => e.children@[i]) by {
                    assert(decreases_to!(*n => (*n)->Element_0));
                    assert((*n)->Element_0 == *e);
                    assert(decreases_to!(*e => e.children));
                    assert(decreases_to!(e.children => e.children@));
                    assert(decreases_to!(e.children@ => e.children@[i]));
                }
            }
            Some(&e.children)
        },
        DomNode::Text(_) => None,
        DomNode::Other(c) => {
            proof {
                assert forall|i: int| 0 <= i < c@.len() implies decreases_to!(*n => c@[i]) by {
                    assert(decreases_to!(*n => (*n)->Other_0));
                    assert(decreases_to!(c => c@));
                }
            }
            Some(c)
        },
    }
}

/// The value of an attribute of an element.
pub fn attr<'a>(n: &'a DomNode, k: &str) -> (r: Option<&'a String>)
    ensures
        match r {
            Some(v) => attr_of(dom_view(*n), k@) == Some(v@),
            None => attr_of(dom_view(*n), k@) is None,
        },
{
    match n {
        DomNode::Element(e) => e.attrs.get(k),
        _ => None,
    }
}

/// The lower-cased local name of an element.
pub fn lower_name(n: &DomNode) -> (r: Option<String>)
    ensures
        match r {
            Some(v) => lname(dom_view(*n)) == Some(v@),
            None => lname(dom_view(*n)) is None,
        },
{
    match n {
        DomNode::Element(e) => Some(to_lowercase(e.name.as_str())),
        _ => None,
    }
}

/// Whether a node is an element whose lower-cased local name is `t`.
pub fn lname_is(n: &DomNode, t: &str) -> (r: bool)
    ensures
        r == (lname(dom_view(*n)) == Some(t@)),
{
    match lower_name(n) {
        Some(v) => str_equal(v.as_str(), t),
        None => false,
    }
}

/// Whether a node is a text node of white space only.
pub fn is_whitespace_node(n: &DomNode) -> (r: bool)
    ensures
        r == is_ws_node(dom_view(*n)),
{
    match n {
        DomNode::Text(t) => is_blank(t.as_str()),
        _ => false,
    }
}

fn is_class_sep_exec(c: char) -> (r: bool)
    ensures
        r == is_class_sep(c),
{
    c == ' ' || c == '\t' || c == '\n' || c == '\r' || c == '\u{0C}'
}

fn class_token_exec(v: &str, c: &str) -> (r: bool)
    ensures
        r == has_class_token(v@, c@),
{
    let n = v.unicode_len();
    let m = c.unicode_len();
    if m == 0 || m > n {
        return false;
    }
    let mut i: usize = 0;
    loop
        invariant
            n == v@.len(),
            m == c@.len(),
            0 < m <= n,
            i <= n - m,
            forall|j: int|
                0 <= j < i ==> !(occurs_at(v@, c@, j) && (j == 0 || is_class_sep(v@[j - 1])) && (
                j + m == n || is_class_sep(v@[j + m]))),
        decreases n - m - i,
    {
        if occurs_at_exec(v, c, i) && (i == 0 || is_class_sep_exec(v.get_char(i - 1))) && (i + m
            == n || is_class_sep_exec(v.get_char(i + m))) {
            return true;
        }
        if i == n - m {
            assert forall|j: int|
                !(occurs_at(v@, c@, j) && (j == 0 || is_class_sep(v@[j - 1])) && (j + m == n
                    || is_class_sep(v@[j + m]))) by {
                if 0 <= j && j + m <= n {
                    assert(j <= i);
                }
            }
            return false;
        }
        i = i + 1;
    }
}

pub fn has_class_exec(n: &DomNode, c: &str) -> (r: bool)
    ensures
        r == has_class(dom_view(*n), c@),
{
    match attr(n, "class") {
        Some(v) => class_token_exec(v.as_str(), c),
        None => false,
    }
}

fn is_tag_exec(n: &DomNode, t: &str) -> (r: bool)
    ensures
        r == is_tag(dom_view(*n), t@),
{
    match n {
        DomNode::Element(e) => str_equal(e.name.as_str(), t),
        _ => false,
    }
}

fn sel_matches_exec(sel: &Sel, n: &DomNode, chain: &Vec<&DomNode>) -> (r: bool)
    ensures
        r == sel_matches(*sel, dom_view(*n), chain_view(chain@)),
{
    match sel {
        Sel::Tag(t) => is_tag_exec(n, t),
        Sel::Class(c) => has_class_exec(n, c),
        Sel::ContentDiv => {
            if !is_tag_exec(n, "div") {
                return false;
            }
            match attr(n, "data-content") {
                Some(v) => str_equal(v.as_str(), "true"),
                None => false,
            }
        },
        Sel::BlockLevel => match n {
            DomNode::Element(e) => {
                let t = e.name.as_str();
                str_equal(t, "h1") || str_equal(t, "h2") || str_equal(t, "h3") || str_equal(t, "h4")
                    || str_equal(t, "h5") || str_equal(t, "h6") || str_equal(t, "p") || str_equal(t, "pre")
                    || str_equal(t, "ul") || str_equal(t, "ol") || str_equal(t, "li")
            },
            _ => false,
        },
    }
}

/// Appends the node and its descendants that match, in tree order.
pub fn select_into<'a>(sel: &Sel, n: &'a DomNode, chain: &Vec<&'a DomNode>, out: &mut Vec<Located<'a>>)
    ensures
        final(out)@.map_values(|l: Located| located_view(l)) == old(out)@.map_values(
            |l: Located| located_view(l),
        ) + select_all(*sel, dom_view(*n), chain_view(chain@)),
    decreases n, 1nat,
{
    let ghost start = out@.map_values(|l: Located| located_view(l));
    if sel_matches_exec(sel, n, chain) {
        let c = copy_chain(chain);
        out.push(Located { node: n, chain: c });
    }
    assert(out@.map_values(|l: Located| located_view(l)) =~= start + (if sel_matches(
        *sel,
        dom_view(*n),
        chain_view(chain@),
    ) {
        seq![(dom_view(*n), chain_view(chain@))]
    } else {
        Seq::empty()
    }));
    match node_children(n) {
        Some(kids) => {
            let cc = child_chain(chain, n);
            select_forest_into(sel, n, kids, &cc, out);
        },
        None => {
            assert(select_forest(*sel, Seq::<DomView>::empty(), chain_view(chain@).push(dom_view(*n)))
                =~= Seq::<(DomView, Seq<DomView>)>::empty());
        },
    }
}

fn select_forest_into<'a>(
    sel: &Sel,
    parent: &'a DomNode,
    s: &'a Vec<DomNode>,
    chain: &Vec<&'a DomNode>,
    out: &mut Vec<Located<'a>>,
)
    requires
        forall|i: int| 0 <= i < s@.len() ==> decreases_to!(*parent => s@[i]),
    ensures
        final(out)@.map_values(|l: Located| located_view(l)) == old(out)@.map_values(
            |l: Located| located_view(l),
        ) + select_forest(*sel, doms_view(s@), chain_view(chain@)),
    decreases parent, 0nat,
{
    let ghost start = out@.map_values(|l: Located| located_view(l));
    let n = s.len();
    let mut i: usize = 0;
    assert(doms_view(s@).take(0) =~= Seq::<DomView>::empty());
    while i < n
        invariant
            n == s@.len(),
            i <= n,
            forall|j: int| 0 <= j < s@.len() ==> decreases_to!(*parent => s@[j]),
            out@.map_values(|l: Located| located_view(l)) == start + select_forest(
                *sel,
                doms_view(s@).take(i as int),
                chain_view(chain@),
            ),
        decreases n - i,
    {
        select_into(sel, &s[i], chain, out);
        proof {
            let sv = doms_view(s@);
            assert(sv.take(i + 1).drop_last() =~= sv.take(i as int));
            assert(sv.take(i + 1).last() == dom_view(s@[i as int]));
        }
        i = i + 1;
    }
    assert(doms_view(s@).take(n as int) =~= doms_view(s@));
}

/// The node and its descendants that match, in tree order.
pub fn select<'a>(sel: &Sel, n: &'a DomNode, chain: &Vec<&'a DomNode>) -> (r: Vec<Located<'a>>)
    ensures
        r@.map_values(|l: Located| located_view(l)) == select_all(*sel, dom_view(*n), chain_view(chain@)),
{
    let mut out: Vec<Located<'a>> = Vec::new();
    assert(out@.map_values(|l: Located| located_view(l)) =~= Seq::<(DomView, Seq<DomView>)>::empty());
    select_into(sel, n, chain, &mut out);
    assert(out@.map_values(|l: Located| located_view(l)) =~= select_all(*sel, dom_view(*n), chain_view(chain@)));
    out
}

/// The first node in tree order that matches.
pub fn select_first_exec<'a>(sel: &Sel, n: &'a DomNode, chain: &Vec<&'a DomNode>) -> (r: Option<Located<'a>>)
    ensures
        match r {
            Some(l) => select_first(*sel, dom_view(*n), chain_view(chain@)) == Some(located_view(l)),
            None => select_first(*sel, dom_view(*n), chain_view(chain@)) is None,
        },
{
    let mut all = select(sel, n, chain);
    if all.len() == 0 {
        None
    } else {
        let l = all.remove(0);
        Some(l)
    }
}

/// The text of a node (`NodeRef::text_contents`).
pub fn text_contents(n: &DomNode) -> (r: String)
    ensures
        r@ == text_of(dom_view(*n)),
    decreases n, 1nat,
{
    match n {
        DomNode::Text(t) => t.clone(),
        _ => match node_children(n) {
            Some(kids) => texts_contents(n, kids),
            None => String::new(),
        },
    }
}

fn texts_contents(parent: &DomNode, s: &Vec<DomNode>) -> (r: String)
    requires
        forall|i: int| 0 <= i < s@.len() ==> decreases_to!(*parent => s@[i]),
        !(*parent is Text),
        doms_view(s@) == children_of(dom_view(*parent)),
    ensures
        r@ == texts_of(doms_view(s@)),
    decreases parent, 0nat,
{
    let mut r = String::new();
    let n = s.len();
    let mut i: usize = 0;
    assert(doms_view(s@).take(0) =~= Seq::<DomView>::empty());
    while i < n
        invariant
            n == s@.len(),
            i <= n,
            forall|j: int| 0 <= j < s@.len() ==> decreases_to!(*parent => s@[j]),
            r@ == texts_of(doms_view(s@).take(i as int)),
        decreases n - i,
    {
        let t = text_contents(&s[i]);
        r.append(t.as_str());
        proof {
            let sv = doms_view(s@);
            assert(sv.take(i + 1).drop_last() =~= sv.take(i as int));
            assert(sv.take(i + 1).last() == dom_view(s@[i as int]));
        }
        i = i + 1;
    }
    assert(doms_view(s@).take(n as int) =~= doms_view(s@));
    r
}


/// The number of nodes in a tree.
pub open spec fn node_size(n: DomView) -> nat
    decreases n,
{
    match n {
        DomView::Element { children, .. } => 1 + forest_size(children),
        DomView::Text(_) => 1,
        DomView::Other(c) => 1 + forest_size(c),
    }
}

/// The number of nodes in a sequence of trees.
pub open spec fn forest_size(s: Seq<DomView>) -> nat
    decreases s,
{
    if s.len() == 0 {
        0
    } else {
        forest_size(s.drop_last()) + node_size(s.last())
    }
}

pub proof fn lemma_forest_size_member(s: Seq<DomView>, i: int)
    requires
        0 <= i < s.len(),
    ensures
        node_size(s[i]) <= forest_size(s),
    decreases s.len(),
{
    if i < s.len() - 1 {
        lemma_forest_size_member(s.drop_last(), i);
    }
}

/// A child is smaller than its parent.
pub proof fn lemma_child_smaller(n: DomView, i: int)
    requires
        0 <= i < children_of(n).len(),
    ensures
        node_size(children_of(n)[i]) < node_size(n),
{
    lemma_forest_size_member(children_of(n), i);
}

/// What a selection finds under a node is no larger than the node.
pub proof fn lemma_select_all_sizes(sel: Sel, n: DomView, chain: Seq<DomView>)
    ensures
        forall|k: int|
            0 <= k < select_all(sel, n, chain).len() ==> node_size(#[trigger] select_all(sel, n, chain)[k].0)
                <= node_size(n),
    decreases n,
{
    let head = if sel_matches(sel, n, chain) {
        seq![(n, chain)]
    } else {
        Seq::<(DomView, Seq<DomView>)>::empty()
    };
    match n {
        DomView::Element { name, attrs, children } => {
            lemma_select_forest_sizes(sel, children, chain.push(n));
        },
        DomView::Text(_) => {},
        DomView::Other(c) => {
            lemma_select_forest_sizes(sel, c, chain.push(n));
        },
    }
    let all = select_all(sel, n, chain);
    assert forall|k: int| 0 <= k < all.len() implies node_size(#[trigger] all[k].0) <= node_size(n) by {
        if k >= head.len() {
            let rest = match n {
                DomView::Element { name, attrs, children } => select_forest(sel, children, chain.push(n)),
                DomView::Text(_) => Seq::empty(),
                DomView::Other(c) => select_forest(sel, c, chain.push(n)),
            };
            assert(all == head + rest);
            assert(all[k] == rest[k - head.len()]);
        }
    }
}

/// What a selection finds among trees is no larger than all of them.
pub proof fn lemma_select_forest_sizes(sel: Sel, s: Seq<DomView>, chain: Seq<DomView>)
    ensures
        forall|k: int|
            0 <= k < select_forest(sel, s, chain).len() ==> node_size(
                #[trigger] select_forest(sel, s, chain)[k].0,
            ) <= forest_size(s),
    decreases s,
{
    if s.len() > 0 {
        lemma_select_forest_sizes(sel, s.drop_last(), chain);
        lemma_select_all_sizes(sel, s.last(), chain);
        let a = select_forest(sel, s.drop_last(), chain);
        let b = select_all(sel, s.last(), chain);
        assert forall|k: int| 0 <= k < (a + b).len() implies node_size(#[trigger] (a + b)[k].0) <= forest_size(s) by {
            if k < a.len() {
                assert((a + b)[k] == a[k]);
            } else {
                assert((a + b)[k] == b[k - a.len()]);
            }
        }
    }
}

} // verus!
