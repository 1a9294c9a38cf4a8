use vstd::prelude::*;
use vstd::string::*;

use crate::blocks::{blocks_view, Block};
use crate::code_lang::{code_class_language, fence_language, fence_language_exec, first_line};
use crate::dom::{build_document, document_of_events, DomNode, DomView};
use crate::dom_query::{
    attr, attr_of, chain_view, children_of, lemma_child_smaller, located_view, node_children,
    node_size, select, select_all, select_first, select_first_exec, text_contents, text_of, Located,
    Sel,
};
use crate::html_io::{parse_html_events, parsed_html_events};
use crate::html_parser::{
    heading_level, html_block_count, html_blocks, is_heading_name, try_parse_html_to_blocks,
};
use crate::code_lang::class_language_exec;
use crate::ids::is_block_id;
use crate::text::{
    all_ws, contains, decimal, decimal_string, ends_with, is_blank, occurs_at_exec, seq_contains,
    seq_ends_with, seq_starts_with, starts_with, str_equal, to_owned, trim, trim_end, trim_end_str,
    trim_str,
};

verus! {

/// The HTML that comrak writes for `markdown` with the options of
/// `markdown_to_html`.
pub uninterp spec fn comrak_html(markdown: Seq<char>) -> Seq<char>;

/// `comrak::markdown_to_html` with strikethrough, tables, task lists,
/// superscript and footnotes, smart punctuation, raw HTML let through, the
/// language of a code fence written as `<pre lang=..>`, and no default info
/// string. The contract says only that the result is comrak's HTML for
/// `markdown`.
#[verifier::external_body]
fn markdown_to_html(markdown: &str) -> (r: String)
    ensures
        r@ == comrak_html(markdown@),
{
    let mut options = comrak::ComrakOptions::default();
    options.extension.strikethrough = true;
    options.extension.table = true;
    options.extension.tasklist = true;
    options.extension.superscript = true;
    options.extension.footnotes = true;
    options.parse.smart = true;
    options.render.unsafe_ = true;
    options.render.github_pre_lang = true;
    options.parse.default_info_string = None;
    comrak::markdown_to_html(markdown, &options)
}

pub open spec fn heading_html(level: nat, text: Seq<char>) -> Seq<char> {
    "<div class=\"bn-block-container\"><div class=\"bn-block\" data-type=\"heading\" data-prop-level=\""@
        + decimal(level) + "\"><div class=\"bn-block-content\"><span>"@ + text + "</span></div></div></div>"@
}

pub open spec fn code_html(lang: Seq<char>, code: Seq<char>) -> Seq<char> {
    "<div class=\"bn-block-container\"><div class=\"bn-block\" data-type=\"codeBlock\" data-prop-language=\""@
        + lang + "\" data-language=\""@ + lang + "\"><div class=\"bn-block-content\"><span>"@ + code
        + "</span></div></div></div>"@
}

pub open spec fn paragraph_html(content: Seq<char>) -> Seq<char> {
    "<div class=\"bn-block-container\"><div class=\"bn-block\" data-type=\"paragraph\"><div class=\"bn-block-content\">"@
        + content + "</div></div></div>"@
}

pub open spec fn bold_span(t: Seq<char>) -> Seq<char> {
    "<span style=\"font-weight: bold;\" data-style-bold=\"true\" data-style=\"{&quot;bold&quot;:true}\">"@
        + t + "</span>"@
}

pub open spec fn italic_span(t: Seq<char>) -> Seq<char> {
    "<span style=\"font-style: italic;\" data-style-italic=\"true\" data-style=\"{&quot;italic&quot;:true}\">"@
        + t + "</span>"@
}

pub open spec fn code_span(t: Seq<char>) -> Seq<char> {
    "<span style=\"font-family: monospace;\" data-style-code=\"true\" data-style=\"{&quot;code&quot;:true}\">"@
        + t + "</span>"@
}

pub open spec fn plain_span(t: Seq<char>) -> Seq<char> {
    "<span>"@ + t + "</span>"@
}

/// The language of a code block made from Markdown: the `lang` of the
/// `pre` (even empty), else the `language-` class of the code, else the
/// word after a code fence at the start of its text, else `text`.
pub open spec fn md_code_language(pre: DomView, code: DomView) -> Seq<char> {
    let l0 = match attr_of(pre, "lang"@) {
        Some(l) => l,
        None => "text"@,
    };
    let l1 = if l0 == "text"@ {
        match code_class_language(code) {
            Some(l) => l,
            None => l0,
        }
    } else {
        l0
    };
    if l1 == "text"@ {
        match fence_language(text_of(code)) {
            Some(l) => l,
            None => l1,
        }
    } else {
        l1
    }
}

/// The code of a code block made from Markdown: a fence line at its start
/// dropped, and a closing fence at its end dropped with the white space
/// before it.
pub open spec fn md_code_content(t: Seq<char>) -> Seq<char> {
    let t1 = if seq_starts_with(t, "```"@) && first_line(t).len() < t.len() {
        t.skip(first_line(t).len() as int + 1)
    } else {
        t
    };
    if seq_ends_with(t1, "```"@) {
        trim_end(t1.take(t1.len() - 3))
    } else {
        t1
    }
}

/// The span that a child of a paragraph gives: bold, italic and code
/// elements their trimmed text (when it is not only white space), other
/// elements and text their text as it is (when not empty).
pub open spec fn child_span(c: DomView) -> Seq<char> {
    match c {
        DomView::Element { name, .. } => {
            let t = text_of(c);
            if name == "strong"@ || name == "b"@ {
                if !all_ws(t) {
                    bold_span(trim(t))
                } else {
                    Seq::empty()
                }
            } else if name == "em"@ || name == "i"@ {
                if !all_ws(t) {
                    italic_span(trim(t))
                } else {
                    Seq::empty()
                }
            } else if name == "code"@ {
                if !all_ws(t) {
                    code_span(trim(t))
                } else {
                    Seq::empty()
                }
            } else if t.len() > 0 {
                plain_span(t)
            } else {
                Seq::empty()
            }
        },
        DomView::Text(t) => if t.len() > 0 {
            plain_span(t)
        } else {
            Seq::empty()
        },
        DomView::Other(_) => Seq::empty(),
    }
}

pub open spec fn children_spans(s: Seq<DomView>) -> Seq<char>
    decreases s.len(),
{
    if s.len() == 0 {
        Seq::empty()
    } else {
        children_spans(s.drop_last()) + child_span(s.last())
    }
}

/// An element of the name given.
pub open spec fn is_named(n: DomView, t: Seq<char>) -> bool {
    n matches DomView::Element { name, .. } && name == t
}

/// A `ul` or `ol` element.
pub open spec fn is_list_element(n: DomView) -> bool {
    is_named(n, "ul"@) || is_named(n, "ol"@)
}

/// One of the ancestors in `chain` is a list item.
pub open spec fn in_list_item(chain: Seq<DomView>) -> bool {
    exists|i: int| 0 <= i < chain.len() && is_named(#[trigger] chain[i], "li"@)
}

/// The trimmed text that a child of a list item adds to the item's text:
/// that of an element other than a list, or of a text node.
pub open spec fn item_part(c: DomView) -> Seq<char> {
    match c {
        DomView::Element { .. } => if is_list_element(c) {
            Seq::empty()
        } else {
            trim(text_of(c))
        },
        DomView::Text(t) => trim(t),
        DomView::Other(_) => Seq::empty(),
    }
}

/// The text of a list item: the parts its children add (see `item_part`)
/// that are not empty, joined by single spaces.
pub open spec fn item_text(s: Seq<DomView>) -> Seq<char>
    decreases s.len(),
{
    if s.len() == 0 {
        Seq::empty()
    } else {
        let prev = item_text(s.drop_last());
        let t = item_part(s.last());
        if t.len() == 0 {
            prev
        } else if prev.len() == 0 {
            t
        } else {
            prev + " "@ + t
        }
    }
}

/// The start of the block container of a list item, up to its text.
pub open spec fn item_open() -> Seq<char> {
    "<div class=\"bn-block-container\"><div class=\"bn-block\" data-type=\"bulletListItem\"><div class=\"bn-block-content\"><span>"@
}

/// The block HTML of a list item: a `bulletListItem` container with the
/// item's trimmed text, holding in a block group the items of the lists
/// among its children.
pub open spec fn item_html(li: DomView) -> Seq<char>
    decreases node_size(li), 2nat, 0nat,
{
    let nested = nested_lists_html(children_of(li), node_size(li));
    item_open() + trim(item_text(children_of(li))) + "</span></div>"@ + (if nested.len() > 0 {
        "<div class=\"bn-block-group\">"@ + nested + "</div>"@
    } else {
        Seq::empty()
    }) + "</div></div>"@
}

/// The block HTML of the items of the lists among `s`, in order.
pub open spec fn nested_lists_html(s: Seq<DomView>, bound: nat) -> Seq<char>
    decreases bound, 1nat, s.len(),
{
    if s.len() == 0 {
        Seq::empty()
    } else {
        nested_lists_html(s.drop_last(), bound) + if is_list_element(s.last()) {
            list_items_html(children_of(s.last()), bound)
        } else {
            Seq::empty()
        }
    }
}

/// The block HTML of the `li` elements among `s` (each smaller than
/// `bound`), in order.
pub open spec fn list_items_html(s: Seq<DomView>, bound: nat) -> Seq<char>
    decreases bound, 0nat, s.len(),
{
    if s.len() == 0 {
        Seq::empty()
    } else {
        list_items_html(s.drop_last(), bound) + if is_named(s.last(), "li"@) && node_size(s.last())
            < bound {
            item_html(s.last())
        } else {
            Seq::empty()
        }
    }
}

/// The HTML of the BlockNote blocks that an element made from Markdown
/// gives (`chain` its ancestors). Inside a list item nothing: the item
/// reads its own text. Elsewhere a heading block for `h1`..`h6` with its
/// trimmed text and its level, a code block for a `pre` with a `code`, a
/// paragraph block for a `p` with spans, the item blocks of a `ul` or
/// `ol`, and nothing for the rest.
pub open spec fn element_html(n: DomView, chain: Seq<DomView>) -> Seq<char> {
    if in_list_item(chain) {
        Seq::empty()
    } else {
        match n {
            DomView::Element { name, children, .. } => if is_heading_name(name) {
                heading_html(heading_level(name), trim(text_of(n)))
            } else if name == "pre"@ {
                match select_first(Sel::Tag("code"), n, chain) {
                    Some(code) => code_html(md_code_language(n, code.0), md_code_content(text_of(code.0))),
                    None => Seq::empty(),
                }
            } else if name == "p"@ {
                let content = children_spans(children);
                if content.len() > 0 {
                    paragraph_html(content)
                } else {
                    Seq::empty()
                }
            } else if name == "ul"@ || name == "ol"@ {
                list_items_html(children, node_size(n))
            } else {
                Seq::empty()
            },
            _ => Seq::empty(),
        }
    }
}

pub open spec fn elements_html(ms: Seq<(DomView, Seq<DomView>)>) -> Seq<char>
    decreases ms.len(),
{
    if ms.len() == 0 {
        Seq::empty()
    } else {
        elements_html(ms.drop_last()) + element_html(ms.last().0, ms.last().1)
    }
}

/// The HTML of the blocks of a document made from Markdown: that of each
/// block-level element under the first `body`, in tree order.
pub open spec fn document_block_html(doc: DomView) -> Seq<char> {
    match select_first(Sel::Tag("body"), doc, Seq::empty()) {
        Some(b) => elements_html(select_all(Sel::BlockLevel, b.0, b.1)),
        None => Seq::empty(),
    }
}

/// The BlockNote document that Markdown's HTML document `doc` becomes: the
/// block HTML of its elements inside one block group.
pub open spec fn markdown_document_html(doc: DomView) -> Seq<char> {
    "<html><head></head><body><div><div class=\"bn-block-group\">"@ + document_block_html(doc)
        + "</div></div></body></html>"@
}

/// The BlockNote HTML that Markdown text becomes.
pub open spec fn markdown_html(markdown: Seq<char>) -> Seq<char> {
    markdown_document_html(document_of_events(parsed_html_events(comrak_html(markdown))))
}

fn md_code_language_exec(pre: &DomNode, code: &DomNode) -> (r: String)
    ensures
        r@ == md_code_language(pre@, code@),
{
    let mut lang = match attr(pre, "lang") {
        Some(l) => l.clone(),
        None => to_owned("text"),
    };
    if str_equal(lang.as_str(), "text") {
        match attr(code, "class") {
            Some(c) => match class_language_exec(c.as_str()) {
                Some(l) => {
                    lang = l;
                },
                None => {},
            },
            None => {},
        }
    }
    if str_equal(lang.as_str(), "text") {
        let t = text_contents(code);
        match fence_language_exec(t.as_str()) {
            Some(l) => {
                lang = l;
            },
            None => {},
        }
    }
    lang
}

fn first_newline(s: &str) -> (r: usize)
    ensures
        r as nat == first_line(s@).len(),
        r <= s@.len(),
{
    let n = s.unicode_len();
    let mut i: usize = 0;
    while i < n && s.get_char(i) != '\n'
        invariant
            n == s@.len(),
            i <= n,
            forall|j: int| 0 <= j < i ==> s@[j] != '\n',
        decreases n - i,
    {
        i = i + 1;
    }
    proof {
        lemma_first_line_len(s@, i as int);
    }
    i
}

proof fn lemma_first_line_len(s: Seq<char>, i: int)
    requires
        0 <= i <= s.len(),
        forall|j: int| 0 <= j < i ==> s[j] != '\n',
        i == s.len() || s[i] == '\n',
    ensures
        first_line(s).len() == i,
    decreases s.len(),
{
    if s.len() > 0 && s[0] != '\n' {
        lemma_first_line_len(s.skip(1), i - 1);
    }
}

fn md_code_content_exec(t: &str) -> (r: String)
    ensures
        r@ == md_code_content(t@),
{
    proof {
        reveal_strlit("```");
    }
    let n = t.unicode_len();
    let k = first_newline(t);
    let t1: &str = if starts_with(t, "```") && k < n {
        let s = t.substring_char(k + 1, n);
        assert(s@ =~= t@.skip(first_line(t@).len() as int + 1));
        s
    } else {
        t
    };
    if ends_with(t1, "```") {
        let m = t1.unicode_len();
        let cut = t1.substring_char(0, m - 3);
        assert(cut@ =~= t1@.take(t1@.len() - 3));
        to_owned(trim_end_str(cut))
    } else {
        to_owned(t1)
    }
}

fn child_span_exec(c: &DomNode) -> (r: String)
    ensures
        r@ == child_span(c@),
{
    match c {
        DomNode::Element(e) => {
            let t = text_contents(c);
            let name = e.name.as_str();
            let mut out = String::new();
            if str_equal(name, "strong") || str_equal(name, "b") {
                if !is_blank(t.as_str()) {
                    out.append("<span style=\"font-weight: bold;\" data-style-bold=\"true\" data-style=\"{&quot;bold&quot;:true}\">");
                    out.append(trim_str(t.as_str()));
                    out.append("</span>");
                }
            } else if str_equal(name, "em") || str_equal(name, "i") {
                if !is_blank(t.as_str()) {
                    out.append("<span style=\"font-style: italic;\" data-style-italic=\"true\" data-style=\"{&quot;italic&quot;:true}\">");
                    out.append(trim_str(t.as_str()));
                    out.append("</span>");
                }
            } else if str_equal(name, "code") {
                if !is_blank(t.as_str()) {
                    out.append("<span style=\"font-family: monospace;\" data-style-code=\"true\" data-style=\"{&quot;code&quot;:true}\">");
                    out.append(trim_str(t.as_str()));
                    out.append("</span>");
                }
            } else if t.unicode_len() > 0 {
                out.append("<span>");
                out.append(t.as_str());
                out.append("</span>");
            }
            assert(out@ =~= child_span(c@));
            out
        },
        DomNode::Text(t) => {
            let mut out = String::new();
            if t.unicode_len() > 0 {
                out.append("<span>");
                out.append(t.as_str());
                out.append("</span>");
            }
            assert(out@ =~= child_span(c@));
            out
        },
        DomNode::Other(_) => {
            let out = String::new();
            assert(out@ =~= child_span(c@));
            out
        },
    }
}

fn element_html_exec(l: &Located) -> (r: String)
    ensures
        r@ == element_html(located_view(*l).0, located_view(*l).1),
{
    let n = l.node;
    let mut out = String::new();
    if in_list_item_exec(&l.chain) {
        return out;
    }
    match n {
        DomNode::Element(e) => {
            let name = e.name.as_str();
            if crate::html_parser::is_heading_name_exec(name) {
                let level = crate::html_parser::heading_level_exec(name);
                let t = text_contents(n);
                out.append("<div class=\"bn-block-container\"><div class=\"bn-block\" data-type=\"heading\" data-prop-level=\"");
                let digits = decimal_string(level as u128);
                out.append(digits.as_str());
                out.append("\"><div class=\"bn-block-content\"><span>");
                out.append(trim_str(t.as_str()));
                out.append("</span></div></div></div>");
            } else if str_equal(name, "pre") {
                match select_first_exec(&Sel::Tag("code"), n, &l.chain) {
                    Some(code) => {
                        let lang = md_code_language_exec(n, code.node);
                        let t = text_contents(code.node);
                        let content = md_code_content_exec(t.as_str());
                        out.append("<div class=\"bn-block-container\"><div class=\"bn-block\" data-type=\"codeBlock\" data-prop-language=\"");
                        out.append(lang.as_str());
                        out.append("\" data-language=\"");
                        out.append(lang.as_str());
                        out.append("\"><div class=\"bn-block-content\"><span>");
                        out.append(content.as_str());
                        out.append("</span></div></div></div>");
                    },
                    None => {},
                }
            } else if str_equal(name, "p") {
                let kids = &e.children;
                let ghost kv = crate::dom::doms_view(kids@);
                let mut content = String::new();
                let k = kids.len();
                let mut i: usize = 0;
                assert(kv.take(0) =~= Seq::<DomView>::empty());
                while i < k
                    invariant
                        k == kids@.len(),
                        i <= k,
                        kv == crate::dom::doms_view(kids@),
                        content@ == children_spans(kv.take(i as int)),
                    decreases k - i,
                {
                    proof {
                        assert(kv.take(i + 1).drop_last() =~= kv.take(i as int));
                        assert(kv.take(i + 1).last() == crate::dom::dom_view(kids@[i as int]));
                    }
                    let sp = child_span_exec(&kids[i]);
                    content.append(sp.as_str());
                    i = i + 1;
                }
                assert(kv.take(k as int) =~= kv);
                if content.unicode_len() > 0 {
                    out.append("<div class=\"bn-block-container\"><div class=\"bn-block\" data-type=\"paragraph\"><div class=\"bn-block-content\">");
                    out.append(content.as_str());
                    out.append("</div></div></div>");
                }
            } else if str_equal(name, "ul") || str_equal(name, "ol") {
                let kids = &e.children;
                proof {
                    assert(crate::dom::doms_view(kids@) == children_of(n@));
                    assert forall|i: int| 0 <= i < kids@.len() implies node_size(crate::dom::dom_view(#[trigger] kids@[i])) < node_size(n@) by {
                        lemma_child_smaller(n@, i);
                    }
                }
                let items = list_items_html_exec(kids, Ghost(node_size(n@)));
                out.append(items.as_str());
            }
        },
        _ => {},
    }
    assert(out@ =~= element_html(located_view(*l).0, located_view(*l).1));
    out
}

/// The HTML of the blocks of a document made from Markdown (see
/// `document_block_html`).
pub fn document_block_html_exec(doc: &DomNode) -> (r: String)
    ensures
        r@ == document_block_html(doc@),
{
    let empty: Vec<&DomNode> = Vec::new();
    assert(chain_view(empty@) =~= Seq::<DomView>::empty());
    let mut out = String::new();
    match select_first_exec(&Sel::Tag("body"), doc, &empty) {
        Some(b) => {
            let ms = select(&Sel::BlockLevel, b.node, &b.chain);
            let ghost mv = ms@.map_values(|l: Located| located_view(l));
            let k = ms.len();
            let mut i: usize = 0;
            assert(mv.take(0) =~= Seq::<(DomView, Seq<DomView>)>::empty());
            while i < k
                invariant
                    k == ms@.len(),
                    i <= k,
                    mv == ms@.map_values(|l: Located| located_view(l)),
                    out@ == elements_html(mv.take(i as int)),
                decreases k - i,
            {
                proof {
                    assert(mv.take(i + 1).drop_last() =~= mv.take(i as int));
                    assert(mv.take(i + 1).last() == located_view(ms@[i as int]));
                }
                let h = element_html_exec(&ms[i]);
                out.append(h.as_str());
                i = i + 1;
            }
            assert(mv.take(k as int) =~= mv);
        },
        None => {},
    }
    out
}

/// Whether one of the ancestors in `chain` is a list item.
fn in_list_item_exec(chain: &Vec<&DomNode>) -> (r: bool)
    ensures
        r == in_list_item(chain_view(chain@)),
{
    let ghost cv = chain_view(chain@);
    let k = chain.len();
    let mut i: usize = 0;
    while i < k
        invariant
            k == chain@.len(),
            i <= k,
            cv == chain_view(chain@),
            forall|j: int| 0 <= j < i ==> !is_named(#[trigger] cv[j], "li"@),
        decreases k - i,
    {
        assert(cv[i as int] == crate::dom::dom_view(*chain@[i as int]));
        if is_named_exec(chain[i], "li") {
            return true;
        }
        i = i + 1;
    }
    false
}

fn is_named_exec(n: &DomNode, t: &str) -> (r: bool)
    ensures
        r == is_named(n@, t@),
{
    match n {
        DomNode::Element(e) => str_equal(e.name.as_str(), t),
        _ => false,
    }
}

fn is_list_element_exec(n: &DomNode) -> (r: bool)
    ensures
        r == is_list_element(n@),
{
    is_named_exec(n, "ul") || is_named_exec(n, "ol")
}

fn item_part_exec(c: &DomNode) -> (r: String)
    ensures
        r@ == item_part(c@),
{
    match c {
        DomNode::Element(_) => if is_list_element_exec(c) {
            String::new()
        } else {
            let t = text_contents(c);
            to_owned(trim_str(t.as_str()))
        },
        DomNode::Text(t) => to_owned(trim_str(t.as_str())),
        DomNode::Other(_) => String::new(),
    }
}

/// The text of a list item whose children are `s` (see `item_text`).
fn item_text_exec(s: &Vec<DomNode>) -> (r: String)
    ensures
        r@ == item_text(crate::dom::doms_view(s@)),
{
    let ghost sv = crate::dom::doms_view(s@);
    let mut out = String::new();
    let k = s.len();
    let mut i: usize = 0;
    assert(sv.take(0) =~= Seq::<DomView>::empty());
    while i < k
        invariant
            k == s@.len(),
            i <= k,
            sv == crate::dom::doms_view(s@),
            out@ == item_text(sv.take(i as int)),
        decreases k - i,
    {
        proof {
            assert(sv.take(i + 1).drop_last() =~= sv.take(i as int));
            assert(sv.take(i + 1).last() == crate::dom::dom_view(s@[i as int]));
        }
        let t = item_part_exec(&s[i]);
        if t.unicode_len() > 0 {
            if out.unicode_len() > 0 {
                out.append(" ");
            }
            out.append(t.as_str());
        }
        i = i + 1;
    }
    assert(sv.take(k as int) =~= sv);
    out
}

/// The block HTML of a list item (see `item_html`).
fn item_html_exec(li: &DomNode) -> (r: String)
    ensures
        r@ == item_html(li@),
    decreases node_size(li@), 2nat, 0nat,
{
    let empty: Vec<DomNode> = Vec::new();
    let kids: &Vec<DomNode> = match node_children(li) {
        Some(k) => k,
        None => &empty,
    };
    proof {
        assert(crate::dom::doms_view(empty@) =~= Seq::<DomView>::empty());
        assert(crate::dom::doms_view(kids@) == children_of(li@));
        assert forall|i: int| 0 <= i < kids@.len() implies node_size(crate::dom::dom_view(#[trigger] kids@[i])) < node_size(li@) by {
            lemma_child_smaller(li@, i);
        }
    }
    let text = item_text_exec(kids);
    let nested = nested_lists_html_exec(kids, Ghost(node_size(li@)));
    let mut out = to_owned("<div class=\"bn-block-container\"><div class=\"bn-block\" data-type=\"bulletListItem\"><div class=\"bn-block-content\"><span>");
    out.append(trim_str(text.as_str()));
    out.append("</span></div>");
    if nested.unicode_len() > 0 {
        out.append("<div class=\"bn-block-group\">");
        out.append(nested.as_str());
        out.append("</div>");
    }
    out.append("</div></div>");
    assert(out@ =~= item_html(li@));
    out
}

/// The block HTML of the items of the lists among `s` (see
/// `nested_lists_html`).
fn nested_lists_html_exec(s: &Vec<DomNode>, bound: Ghost<nat>) -> (r: String)
    requires
        forall|i: int| 0 <= i < s@.len() ==> node_size(crate::dom::dom_view(#[trigger] s@[i])) < bound@,
    ensures
        r@ == nested_lists_html(crate::dom::doms_view(s@), bound@),
    decreases bound@, 1nat, s@.len(),
{
    let ghost sv = crate::dom::doms_view(s@);
    let mut out = String::new();
    let k = s.len();
    let mut i: usize = 0;
    assert(sv.take(0) =~= Seq::<DomView>::empty());
    while i < k
        invariant
            k == s@.len(),
            i <= k,
            sv == crate::dom::doms_view(s@),
            forall|j: int| 0 <= j < s@.len() ==> node_size(crate::dom::dom_view(#[trigger] s@[j])) < bound@,
            out@ == nested_lists_html(sv.take(i as int), bound@),
        decreases k - i,
    {
        proof {
            assert(sv.take(i + 1).drop_last() =~= sv.take(i as int));
            assert(sv.take(i + 1).last() == crate::dom::dom_view(s@[i as int]));
        }
        if is_list_element_exec(&s[i]) {
            match node_children(&s[i]) {
                Some(kids) => {
                    proof {
                        assert forall|j: int| 0 <= j < kids@.len() implies node_size(crate::dom::dom_view(#[trigger] kids@[j])) < bound@ by {
                            lemma_child_smaller(sv[i as int], j);
                        }
                    }
                    let h = list_items_html_exec(kids, bound);
                    out.append(h.as_str());
                },
                None => {},
            }
        }
        i = i + 1;
    }
    assert(sv.take(k as int) =~= sv);
    out
}

/// The block HTML of the `li` elements among `s` (see `list_items_html`).
fn list_items_html_exec(s: &Vec<DomNode>, bound: Ghost<nat>) -> (r: String)
    requires
        forall|i: int| 0 <= i < s@.len() ==> node_size(crate::dom::dom_view(#[trigger] s@[i])) < bound@,
    ensures
        r@ == list_items_html(crate::dom::doms_view(s@), bound@),
    decreases bound@, 0nat, s@.len(),
{
    let ghost sv = crate::dom::doms_view(s@);
    let mut out = String::new();
    let k = s.len();
    let mut i: usize = 0;
    assert(sv.take(0) =~= Seq::<DomView>::empty());
    while i < k
        invariant
            k == s@.len(),
            i <= k,
            sv == crate::dom::doms_view(s@),
            forall|j: int| 0 <= j < s@.len() ==> node_size(crate::dom::dom_view(#[trigger] s@[j])) < bound@,
            out@ == list_items_html(sv.take(i as int), bound@),
        decreases k - i,
    {
        proof {
            assert(sv.take(i + 1).drop_last() =~= sv.take(i as int));
            assert(sv.take(i + 1).last() == crate::dom::dom_view(s@[i as int]));
        }
        if is_named_exec(&s[i], "li") {
            let h = item_html_exec(&s[i]);
            out.append(h.as_str());
        }
        i = i + 1;
    }
    assert(sv.take(k as int) =~= sv);
    out
}

/// The BlockNote document that Markdown's HTML document becomes (see
/// `markdown_document_html`).
pub fn markdown_document_html_exec(doc: &DomNode) -> (r: String)
    ensures
        r@ == markdown_document_html(doc@),
{
    let blocks_html = document_block_html_exec(doc);
    let mut out = to_owned("<html><head></head><body><div><div class=\"bn-block-group\">");
    out.append(blocks_html.as_str());
    out.append("</div></div></body></html>");
    out
}

/// Parses Markdown text into blocks: comrak writes it as HTML, whose block
/// elements are made into BlockNote block HTML (see
/// `markdown_document_html`: headings with their level, paragraphs with
/// styled spans, code blocks with their language, and for each list a
/// `bulletListItem` block per item, holding the items of its nested lists
/// as children), which is then read as HTML. It always gives
/// `Some`; whatever ids the blocks get, they are those that `html_blocks`
/// gives for that HTML with them.
pub fn try_parse_markdown_to_blocks(markdown: &str) -> (r: Option<Vec<Block>>)
    ensures
        r matches Some(blocks) && exists|ids: Seq<Seq<char>>|
            ids.len() == html_block_count(markdown_html(markdown@)) && (forall|i: int|
                0 <= i < ids.len() ==> is_block_id(#[trigger] ids[i])) && blocks_view(blocks@)
                == html_blocks(markdown_html(markdown@), ids),
{
    let html = markdown_to_html(markdown);
    let events = parse_html_events(html.as_str());
    let doc = build_document(&events);
    let final_html = markdown_document_html_exec(&doc);
    let blocks = try_parse_html_to_blocks(final_html.as_str());
    Some(blocks)
}

pub proof fn lemma_children_spans_add(a: Seq<DomView>, b: Seq<DomView>)
    ensures
        children_spans(a + b) == children_spans(a) + children_spans(b),
    decreases b.len(),
{
    if b.len() == 0 {
        assert(a + b =~= a);
    } else {
        lemma_children_spans_add(a, b.drop_last());
        assert((a + b).drop_last() =~= a + b.drop_last());
        assert((a + b).last() == b.last());
    }
}

/// A paragraph made from Markdown keeps the text of each of its children
/// that is neither bold, italic nor code (a text node, a link or any other
/// inline element) whole and in its place, as a plain span: the spans of
/// the children before it, then `<span>` with its text, then the spans of
/// those after it.
pub proof fn lemma_paragraph_keeps_plain_text(n: DomView, chain: Seq<DomView>, i: int)
    requires
        n matches DomView::Element { name, .. } && name == "p"@,
        !in_list_item(chain),
        0 <= i < children_of(n).len(),
        text_of(children_of(n)[i]).len() > 0,
        children_of(n)[i] matches DomView::Element { name, .. } ==> name != "strong"@ && name != "b"@
            && name != "em"@ && name != "i"@ && name != "code"@,
        !(children_of(n)[i] is Other),
    ensures
        ({
            let s = children_of(n);
            children_spans(s) == children_spans(s.take(i)) + "<span>"@ + text_of(s[i]) + "</span>"@
                + children_spans(s.skip(i + 1))
        }),
        exists|a: Seq<char>, b: Seq<char>|
            element_html(n, chain) == a + "<span>"@ + text_of(children_of(n)[i]) + "</span>"@ + b,
{
    reveal_strlit("p");
    reveal_strlit("pre");
    reveal_strlit("ul");
    reveal_strlit("ol");
    reveal_strlit("h1");
    reveal_strlit("h2");
    reveal_strlit("h3");
    reveal_strlit("h4");
    reveal_strlit("h5");
    reveal_strlit("h6");
    reveal_strlit("strong");
    reveal_strlit("b");
    reveal_strlit("em");
    reveal_strlit("i");
    reveal_strlit("code");
    assert("p"@.len() == 1 && "pre"@.len() == 3 && "h1"@.len() == 2 && "h2"@.len() == 2);
    assert("h3"@.len() == 2 && "h4"@.len() == 2 && "h5"@.len() == 2 && "h6"@.len() == 2);
    assert(!is_heading_name("p"@));
    assert("p"@ != "pre"@);
    let s = children_of(n);
    let t = text_of(s[i]);
    assert(s =~= s.take(i) + (seq![s[i]] + s.skip(i + 1)));
    lemma_children_spans_add(s.take(i), seq![s[i]] + s.skip(i + 1));
    lemma_children_spans_add(seq![s[i]], s.skip(i + 1));
    assert(seq![s[i]].drop_last() =~= Seq::<DomView>::empty());
    assert(seq![s[i]].last() == s[i]);
    assert(children_spans(Seq::<DomView>::empty()) == Seq::<char>::empty());
    assert(children_spans(seq![s[i]]) =~= child_span(s[i]));
    match s[i] {
        DomView::Text(x) => {
            assert(text_of(s[i]) == x);
        },
        _ => {},
    }
    assert(child_span(s[i]) == "<span>"@ + t + "</span>"@);
    let content = children_spans(s);
    let pre = children_spans(s.take(i));
    let post = children_spans(s.skip(i + 1));
    assert(content == pre + child_span(s[i]) + post);
    assert(content.len() > 0);
    let head = "<div class=\"bn-block-container\"><div class=\"bn-block\" data-type=\"paragraph\"><div class=\"bn-block-content\">"@;
    let tail = "</div></div></div>"@;
    assert(element_html(n, chain) == paragraph_html(content));
    assert(paragraph_html(content) =~= (head + pre) + "<span>"@ + t + "</span>"@ + (post + tail));
}

/// A bold, italic or code child of a paragraph made from Markdown keeps its
/// trimmed text in its place, in a span marked with its style, when that
/// text is not only white space.
pub proof fn lemma_paragraph_keeps_styled_text(s: Seq<DomView>, i: int)
    requires
        0 <= i < s.len(),
        s[i] is Element,
        !all_ws(text_of(s[i])),
    ensures
        (s[i]->Element_name == "strong"@ || s[i]->Element_name == "b"@) ==> children_spans(s)
            == children_spans(s.take(i))
            + "<span style=\"font-weight: bold;\" data-style-bold=\"true\" data-style=\"{&quot;bold&quot;:true}\">"@
            + trim(text_of(s[i])) + "</span>"@ + children_spans(s.skip(i + 1)),
        (s[i]->Element_name == "em"@ || s[i]->Element_name == "i"@) ==> children_spans(s)
            == children_spans(s.take(i))
            + "<span style=\"font-style: italic;\" data-style-italic=\"true\" data-style=\"{&quot;italic&quot;:true}\">"@
            + trim(text_of(s[i])) + "</span>"@ + children_spans(s.skip(i + 1)),
        s[i]->Element_name == "code"@ ==> children_spans(s) == children_spans(s.take(i))
            + "<span style=\"font-family: monospace;\" data-style-code=\"true\" data-style=\"{&quot;code&quot;:true}\">"@
            + trim(text_of(s[i])) + "</span>"@ + children_spans(s.skip(i + 1)),
{
    reveal_strlit("strong");
    reveal_strlit("b");
    reveal_strlit("em");
    reveal_strlit("i");
    reveal_strlit("code");
    assert(s =~= s.take(i) + (seq![s[i]] + s.skip(i + 1)));
    lemma_children_spans_add(s.take(i), seq![s[i]] + s.skip(i + 1));
    lemma_children_spans_add(seq![s[i]], s.skip(i + 1));
    assert(seq![s[i]].drop_last() =~= Seq::<DomView>::empty());
    assert(seq![s[i]].last() == s[i]);
    assert(children_spans(Seq::<DomView>::empty()) == Seq::<char>::empty());
    assert(children_spans(seq![s[i]]) =~= child_span(s[i]));
    assert(children_spans(s) == children_spans(s.take(i)) + child_span(s[i]) + children_spans(s.skip(i + 1)));
    assert("i"@[0] != "b"@[0]);
    assert("em"@.len() == 2 && "strong"@.len() == 6 && "b"@.len() == 1 && "i"@.len() == 1);
    assert("code"@.len() == 4);
}

} // verus!
