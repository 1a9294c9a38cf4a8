use kuchiki::iter::NodeEdge;
use kuchiki::traits::TendrilSink;
use kuchiki::{Attribute, ExpandedName, NodeData, NodeRef};
use markup5ever::{LocalName, Namespace, QualName};
use vstd::prelude::*;

use crate::dom::{balanced, events_view, DomEvent, EventView};

verus! {

/// The walk, in tree order, of the document that `kuchiki::parse_html`
/// builds from `html` (the document node itself left out).
pub uninterp spec fn parsed_html_events(html: Seq<char>) -> Seq<EventView>;

/// Parses `html` with `kuchiki::parse_html().one(..)` (html5ever's HTML
/// parser) and walks the document with `NodeRef::traverse`: each start of
/// an element gives its local name and its attributes (in the order of the
/// element's attribute map), each named by its local name, after its prefix
/// and a colon when it has one (`xml:lang`); each start of a text node
/// gives its text, each start of another node `Other`, and each end
/// `Close`.
/// The contract says only that the result is the parse of `html`.
#[verifier::external_body]
pub fn parse_html_events(html: &str) -> (r: Vec<DomEvent>)
    ensures
        events_view(r@) == parsed_html_events(html@),
{
    kuchiki::parse_html().one(html).traverse().map(|edge| match edge {
        NodeEdge::Start(node) => match node.data() {
            NodeData::Element(e) => DomEvent::Open(
                e.name.local.to_string(),
                e.attributes.borrow().map.iter().map(|(k, a)| (match &a.prefix {
                    Some(p) => format!("{}:{}", p, k.local),
                    None => k.local.to_string(),
                }, a.value.clone())).collect(),
            ),
            NodeData::Text(t) => DomEvent::Text(t.borrow().clone()),
            _ => DomEvent::Other,
        },
        NodeEdge::End(_) => DomEvent::Close,
    }).collect()
}

/// The HTML text that kuchiki writes for a document made of the walk
/// `events`.
pub uninterp spec fn serialized_html(events: Seq<EventView>) -> Seq<char>;

/// Builds a kuchiki document from a walk (each element in the XHTML
/// namespace, each attribute in no namespace, other nodes left out) and
/// writes it with `NodeRef::to_string` (html5ever's serializer). The
/// contract says only that the result is the serialization of that
/// document.
#[verifier::external_body]
pub fn serialize_html_events(events: &Vec<DomEvent>) -> (r: String)
    requires
        balanced(events_view(events@)),
    ensures
        r@ == serialized_html(events_view(events@)),
{
    let mut stack = vec![NodeRef::new_document()];
    for event in events.iter() {
        let node = match event {
            DomEvent::Open(n, a) => NodeRef::new_element(QualName::new(None, Namespace::from("http://www.w3.org/1999/xhtml"), LocalName::from(n.as_str())),
                a.iter().map(|(k, v)| (ExpandedName::new("", k.as_str()), Attribute { prefix: None, value: v.clone() }))),
            DomEvent::Text(t) => NodeRef::new_text(t.clone()),
            DomEvent::Other => continue,
            DomEvent::Close => { stack.pop(); continue; }
        };
        if let Some(parent) = stack.last() { parent.append(node.clone()); }
        stack.push(node);
    }
    stack[0].to_string()
}

} // verus!
