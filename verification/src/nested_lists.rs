use vstd::prelude::*;

use crate::dom::{
    clone_node, doms_view, lemma_doms_view_empty, lemma_doms_view_push, DomNode, DomView,
    ElementNode,
};
use crate::dom_query::{is_whitespace_node, lname, lower_name};
use crate::string_map::StringMap;
use crate::text::{all_ws, str_equal, to_owned};

verus! {

/// How many times the walk may go again over lists that it has already
/// rearranged (see `walk`). Any budget at least the nesting depth of list
/// items gives the same tree (`lemma_walk_budget`), and no document nests
/// list items this deep.
pub const LIST_WALK_BUDGET: u64 = 0xffff_ffff_ffff_ffffu64;

/// A `ul` or `ol` element (by its lower-cased name).
pub open spec fn is_list_node(n: DomView) -> bool {
    lname(n) == Some("ul"@) || lname(n) == Some("ol"@)
}

/// What a list item keeps as its content: elements other than lists, and
/// text that is not only white space.
pub open spec fn is_content_node(n: DomView) -> bool {
    match n {
        DomView::Element { .. } => !is_list_node(n),
        DomView::Text(t) => !all_ws(t),
        DomView::Other(_) => false,
    }
}

/// The content nodes among `c`, in order.
pub open spec fn content_nodes_of(c: Seq<DomView>) -> Seq<DomView>
    decreases c.len(),
{
    if c.len() == 0 {
        Seq::empty()
    } else {
        (if is_content_node(c[0]) {
            seq![c[0]]
        } else {
            Seq::empty()
        }) + content_nodes_of(c.skip(1))
    }
}

/// The `div` that holds the content of a list item.
pub open spec fn content_wrapper(kids: Seq<DomView>) -> DomView {
    DomView::Element { name: "div"@, attrs: seq![("data-content"@, "true"@)], children: kids }
}

/// The `div` that holds the nested lists of a list item.
pub open spec fn block_group(kids: Seq<DomView>) -> DomView {
    DomView::Element { name: "div"@, attrs: seq![("data-node-type"@, "blockGroup"@)], children: kids }
}

/// A list item rearranged: its content in a wrapper, then its nested lists
/// in a block group if it has any.
pub open spec fn rearranged_item(
    name: Seq<char>,
    attrs: Seq<(Seq<char>, Seq<char>)>,
    wrapped: Seq<DomView>,
    lists: Seq<DomView>,
) -> DomView {
    DomView::Element {
        name,
        attrs,
        children: seq![content_wrapper(wrapped)] + (if lists.len() > 0 {
            seq![block_group(lists)]
        } else {
            Seq::empty()
        }),
    }
}

/// What the content wrapper of an item with children `c` holds before the
/// walk goes on: the content nodes, or one empty text node if there are none.
pub open spec fn wrapped_content(c: Seq<DomView>) -> Seq<DomView> {
    if content_nodes_of(c).len() > 0 {
        content_nodes_of(c)
    } else {
        seq![DomView::Text(Seq::empty())]
    }
}

/// The walk over the `li` elements of a tree in tree order, as kuchiki's
/// `select("li")` yields them while each one is rearranged (see
/// `rearranged_item`): the nested lists of an item are first walked on
/// their own, and the walk then goes on from where the item's first child
/// has moved to. If that child was a nested list, the walk goes over the
/// block group again; if it was content, over the content and then the
/// block group; if it was white space or another kind of node, it has left
/// the tree and the walk ends there. The result is the new tree and whether
/// the walk ended early. Each walk over lists already walked uses one unit
/// of `fuel`; without fuel it is not made.
pub open spec fn walk(n: DomView, fuel: nat) -> (DomView, bool)
    decreases fuel, n,
{
    match n {
        DomView::Element { name, attrs, children } => {
            if name == "li"@ {
                let lists = walked_lists(children, fuel);
                if children.len() == 0 {
                    (rearranged_item(name, attrs, wrapped_content(children), lists), false)
                } else if is_list_node(children[0]) {
                    if fuel == 0 {
                        (rearranged_item(name, attrs, wrapped_content(children), lists), false)
                    } else {
                        let g = walk_forest(lists, (fuel - 1) as nat);
                        (rearranged_item(name, attrs, wrapped_content(children), g.0), g.1)
                    }
                } else if is_content_node(children[0]) {
                    let w = walk_content(children, fuel);
                    if w.1 || fuel == 0 {
                        (rearranged_item(name, attrs, w.0, lists), w.1)
                    } else {
                        let g = walk_forest(lists, (fuel - 1) as nat);
                        (rearranged_item(name, attrs, w.0, g.0), g.1)
                    }
                } else {
                    (rearranged_item(name, attrs, wrapped_content(children), lists), true)
                }
            } else {
                let r = walk_forest(children, fuel);
                (DomView::Element { name, attrs, children: r.0 }, r.1)
            }
        },
        DomView::Text(_) => (n, false),
        DomView::Other(c) => {
            let r = walk_forest(c, fuel);
            (DomView::Other(r.0), r.1)
        },
    }
}

/// The walk over a sequence of siblings, first to last; once it ends, the
/// remaining siblings stay as they are.
pub open spec fn walk_forest(s: Seq<DomView>, fuel: nat) -> (Seq<DomView>, bool)
    decreases fuel, s,
{
    if s.len() == 0 {
        (s, false)
    } else {
        let h = walk(s[0], fuel);
        if h.1 {
            (seq![h.0] + s.skip(1), true)
        } else {
            let t = walk_forest(s.skip(1), fuel);
            (seq![h.0] + t.0, t.1)
        }
    }
}

/// The nested lists among `c`, each walked on its own.
pub open spec fn walked_lists(c: Seq<DomView>, fuel: nat) -> Seq<DomView>
    decreases fuel, c,
{
    if c.len() == 0 {
        Seq::empty()
    } else {
        (if is_list_node(c[0]) {
            seq![walk(c[0], fuel).0]
        } else {
            Seq::empty()
        }) + walked_lists(c.skip(1), fuel)
    }
}

/// The walk over the content nodes among `c`; once it ends, the remaining
/// content nodes stay as they are.
pub open spec fn walk_content(c: Seq<DomView>, fuel: nat) -> (Seq<DomView>, bool)
    decreases fuel, c,
{
    if c.len() == 0 {
        (Seq::empty(), false)
    } else if !is_content_node(c[0]) {
        walk_content(c.skip(1), fuel)
    } else {
        let h = walk(c[0], fuel);
        if h.1 {
            (seq![h.0] + content_nodes_of(c.skip(1)), true)
        } else {
            let t = walk_content(c.skip(1), fuel);
            (seq![h.0] + t.0, t.1)
        }
    }
}

/// The tree that `process_nested_lists` gives for `root`.
pub open spec fn processed_lists(root: DomView) -> DomView {
    walk(root, LIST_WALK_BUDGET as nat).0
}

proof fn lemma_skip_step<T>(s: Seq<T>, i: int)
    requires
        0 <= i < s.len(),
    ensures
        s.skip(i)[0] == s[i],
        s.skip(i).skip(1) == s.skip(i + 1),
        s.skip(i).len() > 0,
{
    assert(s.skip(i).skip(1) =~= s.skip(i + 1));
}

fn is_list_exec(n: &DomNode) -> (r: bool)
    ensures
        r == is_list_node(n@),
{
    match lower_name(n) {
        Some(v) => str_equal(v.as_str(), "ul") || str_equal(v.as_str(), "ol"),
        None => false,
    }
}

fn is_content_exec(n: &DomNode) -> (r: bool)
    ensures
        r == is_content_node(n@),
{
    match n {
        DomNode::Element(_) => !is_list_exec(n),
        DomNode::Text(_) => !is_whitespace_node(n),
        DomNode::Other(_) => false,
    }
}

fn content_nodes_exec(c: &Vec<DomNode>) -> (r: Vec<DomNode>)
    ensures
        doms_view(r@) == content_nodes_of(doms_view(c@)),
{
    let ghost cv = doms_view(c@);
    let mut out: Vec<DomNode> = Vec::new();
    let k = c.len();
    let mut i: usize = 0;
    proof {
        lemma_doms_view_empty();
        assert(cv.skip(0) =~= cv);
    }
    while i < k
        invariant
            k == c@.len(),
            i <= k,
            cv == doms_view(c@),
            content_nodes_of(cv) == doms_view(out@) + content_nodes_of(cv.skip(i as int)),
        decreases k - i,
    {
        proof {
            lemma_skip_step(cv, i as int);
        }
        if is_content_exec(&c[i]) {
            let x = clone_node(&c[i]);
            let ghost before = out@;
            out.push(x);
            proof {
                lemma_doms_view_push(before, x);
            }
        }
        i = i + 1;
    }
    assert(cv.skip(k as int) =~= Seq::<DomView>::empty());
    assert(doms_view(out@) + Seq::<DomView>::empty() =~= doms_view(out@));
    out
}

fn wrapper_exec(kids: Vec<DomNode>) -> (r: DomNode)
    ensures
        r@ == content_wrapper(doms_view(kids@)),
{
    let mut attrs = StringMap::new();
    attrs.insert(to_owned("data-content"), to_owned("true"));
    DomNode::Element(ElementNode { name: to_owned("div"), attrs, children: kids })
}

fn group_exec(kids: Vec<DomNode>) -> (r: DomNode)
    ensures
        r@ == block_group(doms_view(kids@)),
{
    let mut attrs = StringMap::new();
    attrs.insert(to_owned("data-node-type"), to_owned("blockGroup"));
    DomNode::Element(ElementNode { name: to_owned("div"), attrs, children: kids })
}

fn item_exec(e: &ElementNode, wrapped: Vec<DomNode>, lists: Vec<DomNode>) -> (r: DomNode)
    ensures
        r@ == rearranged_item(e.name@, e.attrs.pairs(), doms_view(wrapped@), doms_view(lists@)),
{
    let ghost lv = doms_view(lists@);
    let has_lists = lists.len() > 0;
    let mut kids: Vec<DomNode> = Vec::new();
    let w = wrapper_exec(wrapped);
    kids.push(w);
    if has_lists {
        let g = group_exec(lists);
        kids.push(g);
    }
    proof {
        lemma_doms_view_empty();
        lemma_doms_view_push(Seq::empty(), w);
        if has_lists {
            lemma_doms_view_push(seq![w], kids@[1]);
        }
        assert(doms_view(kids@) =~= seq![content_wrapper(doms_view(wrapped@))] + (if lv.len() > 0 {
            seq![block_group(lv)]
        } else {
            Seq::empty()
        }));
    }
    DomNode::Element(ElementNode { name: e.name.clone(), attrs: e.attrs.duplicate(), children: kids })
}

fn wrapped_exec(c: &Vec<DomNode>) -> (r: Vec<DomNode>)
    ensures
        doms_view(r@) == wrapped_content(doms_view(c@)),
{
    let content = content_nodes_exec(c);
    if content.len() > 0 {
        content
    } else {
        let mut v: Vec<DomNode> = Vec::new();
        let t = DomNode::Text(String::new());
        v.push(t);
        proof {
            lemma_doms_view_empty();
            lemma_doms_view_push(Seq::empty(), t);
        }
        v
    }
}

fn walk_exec(n: &DomNode, fuel: u64) -> (r: (DomNode, bool))
    ensures
        (r.0@, r.1) == walk(n@, fuel as nat),
    decreases fuel, *n,
{
    match n {
        DomNode::Element(e) => {
            proof {
                assert(decreases_to!(*n => (*n)->Element_0));
                assert((*n)->Element_0 == *e);
                assert(decreases_to!(*e => e.children));
                assert(decreases_to!(e.children => e.children@));
            }
            let ghost cv = doms_view(e.children@);
            if str_equal(e.name.as_str(), "li") {
                let lists = walked_lists_exec(&e.children, fuel);
                let k = e.children.len();
                if k == 0 {
                    let w = wrapped_exec(&e.children);
                    (item_exec(e, w, lists), false)
                } else if is_list_exec(&e.children[0]) {
                    let w = wrapped_exec(&e.children);
                    if fuel == 0 {
                        (item_exec(e, w, lists), false)
                    } else {
                        let (g, st) = walk_forest_exec(&lists, fuel - 1);
                        (item_exec(e, w, g), st)
                    }
                } else if is_content_exec(&e.children[0]) {
                    let (w, st) = walk_content_exec(&e.children, fuel);
                    if st || fuel == 0 {
                        (item_exec(e, w, lists), st)
                    } else {
                        let (g, st2) = walk_forest_exec(&lists, fuel - 1);
                        (item_exec(e, w, g), st2)
                    }
                } else {
                    let w = wrapped_exec(&e.children);
                    (item_exec(e, w, lists), true)
                }
            } else {
                let (kids, st) = walk_forest_exec(&e.children, fuel);
                (
                    DomNode::Element(
                        ElementNode { name: e.name.clone(), attrs: e.attrs.duplicate(), children: kids },
                    ),
                    st,
                )
            }
        },
        DomNode::Text(t) => (DomNode::Text(t.clone()), false),
        DomNode::Other(c) => {
            proof {
                assert(decreases_to!(*n => (*n)->Other_0));
                assert(decreases_to!(*c => c@));
            }
            let (kids, st) = walk_forest_exec(c, fuel);
            (DomNode::Other(kids), st)
        },
    }
}

fn walk_forest_exec(s: &Vec<DomNode>, fuel: u64) -> (r: (Vec<DomNode>, bool))
    ensures
        (doms_view(r.0@), r.1) == walk_forest(doms_view(s@), fuel as nat),
    decreases fuel, s@,
{
    let ghost sv = doms_view(s@);
    let mut out: Vec<DomNode> = Vec::new();
    let mut stopped = false;
    let k = s.len();
    let mut i: usize = 0;
    proof {
        lemma_doms_view_empty();
        assert(sv.skip(0) =~= sv);
        assert(Seq::<DomView>::empty() + sv =~= sv);
    }
    while i < k
        invariant
            k == s@.len(),
            i <= k,
            sv == doms_view(s@),
            !stopped ==> walk_forest(sv, fuel as nat) == (
                doms_view(out@) + walk_forest(sv.skip(i as int), fuel as nat).0,
                walk_forest(sv.skip(i as int), fuel as nat).1,
            ),
            stopped ==> walk_forest(sv, fuel as nat) == (doms_view(out@) + sv.skip(i as int), true),
        decreases k - i,
    {
        proof {
            lemma_skip_step(sv, i as int);
            assert(decreases_to!(s@ => s@[i as int]));
        }
        let ghost before = out@;
        if stopped {
            let x = clone_node(&s[i]);
            out.push(x);
            proof {
                lemma_doms_view_push(before, x);
                assert(doms_view(before) + sv.skip(i as int) =~= doms_view(out@) + sv.skip(i + 1));
            }
        } else {
            let (h, st) = walk_exec(&s[i], fuel);
            out.push(h);
            proof {
                lemma_doms_view_push(before, h);
                if st {
                    assert(doms_view(before) + (seq![h@] + sv.skip(i + 1)) =~= doms_view(out@)
                        + sv.skip(i + 1));
                } else {
                    let t = walk_forest(sv.skip(i + 1), fuel as nat);
                    assert(doms_view(before) + (seq![h@] + t.0) =~= doms_view(out@) + t.0);
                }
            }
            stopped = st;
        }
        i = i + 1;
    }
    proof {
        assert(sv.skip(k as int) =~= Seq::<DomView>::empty());
        assert(doms_view(out@) + Seq::<DomView>::empty() =~= doms_view(out@));
    }
    (out, stopped)
}

fn walked_lists_exec(c: &Vec<DomNode>, fuel: u64) -> (r: Vec<DomNode>)
    ensures
        doms_view(r@) == walked_lists(doms_view(c@), fuel as nat),
    decreases fuel, c@,
{
    let ghost cv = doms_view(c@);
    let mut out: Vec<DomNode> = Vec::new();
    let k = c.len();
    let mut i: usize = 0;
    proof {
        lemma_doms_view_empty();
        assert(cv.skip(0) =~= cv);
    }
    while i < k
        invariant
            k == c@.len(),
            i <= k,
            cv == doms_view(c@),
            walked_lists(cv, fuel as nat) == doms_view(out@) + walked_lists(cv.skip(i as int), fuel as nat),
        decreases k - i,
    {
        proof {
            lemma_skip_step(cv, i as int);
            assert(decreases_to!(c@ => c@[i as int]));
        }
        if is_list_exec(&c[i]) {
            let (h, _) = walk_exec(&c[i], fuel);
            let ghost before = out@;
            out.push(h);
            proof {
                lemma_doms_view_push(before, h);
            }
        }
        i = i + 1;
    }
    assert(cv.skip(k as int) =~= Seq::<DomView>::empty());
    assert(doms_view(out@) + Seq::<DomView>::empty() =~= doms_view(out@));
    out
}

fn walk_content_exec(c: &Vec<DomNode>, fuel: u64) -> (r: (Vec<DomNode>, bool))
    ensures
        (doms_view(r.0@), r.1) == walk_content(doms_view(c@), fuel as nat),
    decreases fuel, c@,
{
    let ghost cv = doms_view(c@);
    let mut out: Vec<DomNode> = Vec::new();
    let mut stopped = false;
    let k = c.len();
    let mut i: usize = 0;
    proof {
        lemma_doms_view_empty();
        assert(cv.skip(0) =~= cv);
        assert(Seq::<DomView>::empty() + walk_content(cv, fuel as nat).0 =~= walk_content(cv, fuel as nat).0);
    }
    while i < k
        invariant
            k == c@.len(),
            i <= k,
            cv == doms_view(c@),
            !stopped ==> walk_content(cv, fuel as nat) == (
                doms_view(out@) + walk_content(cv.skip(i as int), fuel as nat).0,
                walk_content(cv.skip(i as int), fuel as nat).1,
            ),
            stopped ==> walk_content(cv, fuel as nat) == (
                doms_view(out@) + content_nodes_of(cv.skip(i as int)),
                true,
            ),
        decreases k - i,
    {
        proof {
            lemma_skip_step(cv, i as int);
            assert(decreases_to!(c@ => c@[i as int]));
        }
        let ghost before = out@;
        if is_content_exec(&c[i]) {
            if stopped {
                let x = clone_node(&c[i]);
                out.push(x);
                proof {
                    lemma_doms_view_push(before, x);
                    assert(doms_view(before) + content_nodes_of(cv.skip(i as int)) =~= doms_view(out@)
                        + content_nodes_of(cv.skip(i + 1)));
                }
            } else {
                let (h, st) = walk_exec(&c[i], fuel);
                out.push(h);
                proof {
                    lemma_doms_view_push(before, h);
                    if st {
                        assert(doms_view(before) + (seq![h@] + content_nodes_of(cv.skip(i + 1)))
                            =~= doms_view(out@) + content_nodes_of(cv.skip(i + 1)));
                    } else {
                        let t = walk_content(cv.skip(i + 1), fuel as nat);
                        assert(doms_view(before) + (seq![h@] + t.0) =~= doms_view(out@) + t.0);
                    }
                }
                stopped = st;
            }
        } else {
            proof {
                assert(Seq::<DomView>::empty() + content_nodes_of(cv.skip(i + 1)) =~= content_nodes_of(
                    cv.skip(i + 1),
                ));
            }
        }
        i = i + 1;
    }
    proof {
        assert(cv.skip(k as int) =~= Seq::<DomView>::empty());
        assert(doms_view(out@) + Seq::<DomView>::empty() =~= doms_view(out@));
    }
    (out, stopped)
}

/// Rearranges the list items of a tree into BlockNote's structure (see
/// `walk`): each item's content goes into a `div` marked
/// `data-content="true"` and its nested lists into a `div` marked
/// `data-node-type="blockGroup"`.
pub fn process_nested_lists(root: &DomNode) -> (r: DomNode)
    ensures
        r@ == processed_lists(root@),
{
    let (r, _) = walk_exec(root, LIST_WALK_BUDGET);
    r
}


/// The larger of two numbers.
pub open spec fn max_nat(a: nat, b: nat) -> nat {
    if a >= b {
        a
    } else {
        b
    }
}

/// The nesting depth of `li` elements in a tree.
pub open spec fn item_depth(n: DomView) -> nat
    decreases n,
{
    match n {
        DomView::Element { name, children, .. } => (if name == "li"@ {
            1nat
        } else {
            0nat
        }) + forest_item_depth(children),
        DomView::Text(_) => 0,
        DomView::Other(c) => forest_item_depth(c),
    }
}

/// The deepest nesting of `li` elements among trees.
pub open spec fn forest_item_depth(s: Seq<DomView>) -> nat
    decreases s,
{
    if s.len() == 0 {
        0
    } else {
        max_nat(item_depth(s[0]), forest_item_depth(s.skip(1)))
    }
}

proof fn lemma_forest_depth_cons(x: DomView, t: Seq<DomView>)
    ensures
        forest_item_depth(seq![x] + t) == max_nat(item_depth(x), forest_item_depth(t)),
{
    assert((seq![x] + t)[0] == x);
    assert((seq![x] + t).skip(1) =~= t);
}

proof fn lemma_forest_depth_member(s: Seq<DomView>, i: int)
    requires
        0 <= i < s.len(),
    ensures
        item_depth(s[i]) <= forest_item_depth(s),
    decreases s.len(),
{
    if i > 0 {
        lemma_forest_depth_member(s.skip(1), i - 1);
    }
}

/// A list item rearranged is as deep as its wrapped content and its lists
/// allow.
proof fn lemma_rearranged_depth(
    attrs: Seq<(Seq<char>, Seq<char>)>,
    wrapped: Seq<DomView>,
    lists: Seq<DomView>,
    d: nat,
)
    requires
        forest_item_depth(wrapped) <= d,
        forest_item_depth(lists) <= d,
    ensures
        item_depth(rearranged_item("li"@, attrs, wrapped, lists)) <= d + 1,
{
    reveal_strlit("li");
    reveal_strlit("div");
    assert("div"@.len() != "li"@.len());
    let w = content_wrapper(wrapped);
    let rest = if lists.len() > 0 {
        seq![block_group(lists)]
    } else {
        Seq::<DomView>::empty()
    };
    lemma_forest_depth_cons(w, rest);
    if lists.len() > 0 {
        lemma_forest_depth_cons(block_group(lists), Seq::empty());
    }
}

proof fn lemma_content_nodes_depth(c: Seq<DomView>)
    ensures
        forest_item_depth(content_nodes_of(c)) <= forest_item_depth(c),
    decreases c.len(),
{
    if c.len() > 0 {
        lemma_content_nodes_depth(c.skip(1));
        if is_content_node(c[0]) {
            lemma_forest_depth_cons(c[0], content_nodes_of(c.skip(1)));
        } else {
            assert(Seq::<DomView>::empty() + content_nodes_of(c.skip(1)) =~= content_nodes_of(c.skip(1)));
        }
    }
}

proof fn lemma_wrapped_depth(c: Seq<DomView>)
    ensures
        forest_item_depth(wrapped_content(c)) <= forest_item_depth(c),
{
    lemma_content_nodes_depth(c);
    if content_nodes_of(c).len() == 0 {
        let t = seq![DomView::Text(Seq::empty())];
        assert(t.skip(1) =~= Seq::<DomView>::empty());
        assert(forest_item_depth(t.skip(1)) == 0);
        assert(item_depth(t[0]) == 0);
        assert(forest_item_depth(t) == 0);
    }
}

/// The walk never makes list items nest deeper.
proof fn lemma_walk_depth(n: DomView, fuel: nat)
    ensures
        item_depth(walk(n, fuel).0) <= item_depth(n),
    decreases fuel, n,
{
    match n {
        DomView::Element { name, attrs, children } => {
            if name == "li"@ {
                let d = forest_item_depth(children);
                lemma_lists_depth(children, fuel);
                lemma_wrapped_depth(children);
                let lists = walked_lists(children, fuel);
                if children.len() == 0 {
                    lemma_rearranged_depth(attrs, wrapped_content(children), lists, d);
                } else if is_list_node(children[0]) {
                    if fuel == 0 {
                        lemma_rearranged_depth(attrs, wrapped_content(children), lists, d);
                    } else {
                        lemma_forest_walk_depth(lists, (fuel - 1) as nat);
                        let g = walk_forest(lists, (fuel - 1) as nat);
                        lemma_rearranged_depth(attrs, wrapped_content(children), g.0, d);
                    }
                } else if is_content_node(children[0]) {
                    lemma_content_walk_depth(children, fuel);
                    let w = walk_content(children, fuel);
                    if w.1 || fuel == 0 {
                        lemma_rearranged_depth(attrs, w.0, lists, d);
                    } else {
                        lemma_forest_walk_depth(lists, (fuel - 1) as nat);
                        let g = walk_forest(lists, (fuel - 1) as nat);
                        lemma_rearranged_depth(attrs, w.0, g.0, d);
                    }
                } else {
                    lemma_rearranged_depth(attrs, wrapped_content(children), lists, d);
                }
            } else {
                lemma_forest_walk_depth(children, fuel);
            }
        },
        DomView::Text(_) => {},
        DomView::Other(c) => {
            lemma_forest_walk_depth(c, fuel);
        },
    }
}

proof fn lemma_forest_walk_depth(s: Seq<DomView>, fuel: nat)
    ensures
        forest_item_depth(walk_forest(s, fuel).0) <= forest_item_depth(s),
    decreases fuel, s,
{
    if s.len() > 0 {
        lemma_walk_depth(s[0], fuel);
        let h = walk(s[0], fuel);
        if h.1 {
            lemma_forest_depth_cons(h.0, s.skip(1));
        } else {
            lemma_forest_walk_depth(s.skip(1), fuel);
            lemma_forest_depth_cons(h.0, walk_forest(s.skip(1), fuel).0);
        }
    }
}

proof fn lemma_lists_depth(c: Seq<DomView>, fuel: nat)
    ensures
        forest_item_depth(walked_lists(c, fuel)) <= forest_item_depth(c),
    decreases fuel, c,
{
    if c.len() > 0 {
        lemma_lists_depth(c.skip(1), fuel);
        if is_list_node(c[0]) {
            lemma_walk_depth(c[0], fuel);
            lemma_forest_depth_cons(walk(c[0], fuel).0, walked_lists(c.skip(1), fuel));
        } else {
            assert(Seq::<DomView>::empty() + walked_lists(c.skip(1), fuel) =~= walked_lists(c.skip(1), fuel));
        }
    }
}

proof fn lemma_content_walk_depth(c: Seq<DomView>, fuel: nat)
    ensures
        forest_item_depth(walk_content(c, fuel).0) <= forest_item_depth(c),
    decreases fuel, c,
{
    if c.len() > 0 {
        if !is_content_node(c[0]) {
            lemma_content_walk_depth(c.skip(1), fuel);
        } else {
            lemma_walk_depth(c[0], fuel);
            let h = walk(c[0], fuel);
            if h.1 {
                lemma_content_nodes_depth(c.skip(1));
                lemma_forest_depth_cons(h.0, content_nodes_of(c.skip(1)));
            } else {
                lemma_content_walk_depth(c.skip(1), fuel);
                lemma_forest_depth_cons(h.0, walk_content(c.skip(1), fuel).0);
            }
        }
    }
}

/// With fuel at least the nesting depth of list items, one more unit
/// changes nothing.
proof fn lemma_walk_fuel_step(n: DomView, fuel: nat)
    requires
        item_depth(n) <= fuel,
    ensures
        walk(n, fuel) == walk(n, fuel + 1),
    decreases fuel, n,
{
    match n {
        DomView::Element { name, attrs, children } => {
            if name == "li"@ {
                lemma_lists_fuel_step(children, fuel);
                lemma_lists_depth(children, fuel);
                let lists = walked_lists(children, fuel);
                if children.len() > 0 && fuel > 0 {
                    lemma_forest_fuel_step(lists, (fuel - 1) as nat);
                    if is_content_node(children[0]) {
                        lemma_content_fuel_step(children, fuel);
                    }
                }
            } else {
                lemma_forest_fuel_step(children, fuel);
            }
        },
        DomView::Text(_) => {},
        DomView::Other(c) => {
            lemma_forest_fuel_step(c, fuel);
        },
    }
}

proof fn lemma_forest_fuel_step(s: Seq<DomView>, fuel: nat)
    requires
        forest_item_depth(s) <= fuel,
    ensures
        walk_forest(s, fuel) == walk_forest(s, fuel + 1),
    decreases fuel, s,
{
    if s.len() > 0 {
        lemma_walk_fuel_step(s[0], fuel);
        lemma_forest_fuel_step(s.skip(1), fuel);
    }
}

proof fn lemma_lists_fuel_step(c: Seq<DomView>, fuel: nat)
    requires
        forest_item_depth(c) <= fuel,
    ensures
        walked_lists(c, fuel) == walked_lists(c, fuel + 1),
    decreases fuel, c,
{
    if c.len() > 0 {
        lemma_walk_fuel_step(c[0], fuel);
        lemma_lists_fuel_step(c.skip(1), fuel);
    }
}

proof fn lemma_content_fuel_step(c: Seq<DomView>, fuel: nat)
    requires
        forest_item_depth(c) <= fuel,
    ensures
        walk_content(c, fuel) == walk_content(c, fuel + 1),
    decreases fuel, c,
{
    if c.len() > 0 {
        lemma_walk_fuel_step(c[0], fuel);
        lemma_content_fuel_step(c.skip(1), fuel);
    }
}

/// The walk's budget never runs short: any two budgets at least the
/// nesting depth of list items give the same tree. So `processed_lists`
/// is the walk without a budget for every tree whose list items nest at
/// most `LIST_WALK_BUDGET` deep.
pub proof fn lemma_walk_budget(n: DomView, f1: nat, f2: nat)
    requires
        item_depth(n) <= f1,
        item_depth(n) <= f2,
    ensures
        walk(n, f1) == walk(n, f2),
    decreases if f1 <= f2 {
        f2 - f1
    } else {
        f1 - f2
    },
{
    if f1 < f2 {
        lemma_walk_fuel_step(n, f1);
        lemma_walk_budget(n, f1 + 1, f2);
    } else if f2 < f1 {
        lemma_walk_fuel_step(n, f2);
        lemma_walk_budget(n, f1, f2 + 1);
    }
}

proof fn lemma_walk_no_items(n: DomView, fuel: nat)
    requires
        item_depth(n) == 0,
    ensures
        walk(n, fuel) == (n, false),
    decreases fuel, n,
{
    match n {
        DomView::Element { name, attrs, children } => {
            lemma_walk_forest_no_items(children, fuel);
        },
        DomView::Text(_) => {},
        DomView::Other(c) => {
            lemma_walk_forest_no_items(c, fuel);
        },
    }
}

proof fn lemma_walk_forest_no_items(s: Seq<DomView>, fuel: nat)
    requires
        forest_item_depth(s) == 0,
    ensures
        walk_forest(s, fuel) == (s, false),
    decreases fuel, s,
{
    if s.len() > 0 {
        lemma_walk_no_items(s[0], fuel);
        lemma_walk_forest_no_items(s.skip(1), fuel);
        assert(seq![s[0]] + s.skip(1) =~= s);
    }
}

/// A document without list items is left as it is.
pub proof fn lemma_no_items_unchanged(root: DomView)
    requires
        item_depth(root) == 0,
    ensures
        processed_lists(root) == root,
{
    lemma_walk_no_items(root, LIST_WALK_BUDGET as nat);
}

} // verus!
