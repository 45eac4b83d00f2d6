//! XML documents as the library reads them: the nodes of a parsed document
//! in document order, each with its local tag name, whether it is an
//! element, its text, its attributes and its parent. Parsing is roxmltree's.

use vstd::prelude::*;
use crate::text::{chars_of, eq_chars, trim_chars, trim};

verus! {

/// One attribute of an element.
pub struct XmlAttr {
    /// The attribute's name carries a namespace.
    pub namespaced: bool,
    pub name: String,
    pub value: String,
}

/// One node of a parsed document.
pub struct XmlNode {
    /// The local tag name; empty for a node that is not an element.
    pub name: String,
    pub is_element: bool,
    /// For an element, the text of its first child when that child is text;
    /// for a text or comment node, its own text.
    pub text: Option<String>,
    pub attrs: Vec<XmlAttr>,
    /// The index of the parent node (the document root has none).
    pub parent: Option<usize>,
}

pub struct XmlAttrView {
    pub namespaced: bool,
    pub name: Seq<char>,
    pub value: Seq<char>,
}

pub struct XmlNodeView {
    pub name: Seq<char>,
    pub is_element: bool,
    pub text: Option<Seq<char>>,
    pub attrs: Seq<XmlAttrView>,
    pub parent: Option<usize>,
}

impl View for XmlAttr {
    type V = XmlAttrView;

    open spec fn view(&self) -> XmlAttrView {
        XmlAttrView { namespaced: self.namespaced, name: self.name@, value: self.value@ }
    }
}

pub open spec fn attrs_view(a: Seq<XmlAttr>) -> Seq<XmlAttrView> {
    a.map_values(|x: XmlAttr| x@)
}

impl View for XmlNode {
    type V = XmlNodeView;

    open spec fn view(&self) -> XmlNodeView {
        XmlNodeView {
            name: self.name@,
            is_element: self.is_element,
            text: match self.text {
                Some(t) => Some(t@),
                None => None,
            },
            attrs: attrs_view(self.attrs@),
            parent: self.parent,
        }
    }
}

pub open spec fn nodes_view(n: Seq<XmlNode>) -> Seq<XmlNodeView> {
    n.map_values(|x: XmlNode| x@)
}

impl XmlAttr {
    /// An attribute from its parts.
    pub fn new(namespaced: bool, name: &str, value: &str) -> (r: XmlAttr)
        ensures
            r@ == (XmlAttrView { namespaced, name: name@, value: value@ }),
    {
        XmlAttr { namespaced, name: name.to_owned(), value: value.to_owned() }
    }
}

impl XmlNode {
    /// A node from its parts.
    pub fn new(
        name: &str,
        is_element: bool,
        text: Option<&str>,
        attrs: Vec<XmlAttr>,
        parent: Option<usize>,
    ) -> (r: XmlNode)
        ensures
            r.name@ == name@,
            r.is_element == is_element,
            r.text matches Some(t) ==> text matches Some(u) && t@ == u@,
            r.text is None ==> text is None,
            r.attrs == attrs,
            r.parent == parent,
    {
        let text = match text {
            Some(t) => Some(t.to_owned()),
            None => None,
        };
        XmlNode { name: name.to_owned(), is_element, text, attrs, parent }
    }
}

/// The nodes of the document that roxmltree parses from `text`, in document
/// order; `None` when roxmltree rejects `text`.
pub uninterp spec fn xml_document(text: Seq<char>) -> Option<Seq<XmlNodeView>>;

/// Parses `text` with `roxmltree::Document::parse` and lists the document's
/// nodes as `Document::descendants` walks them (document order, the root
/// first). Claimed: the call succeeds exactly when `xml_document` has a value
/// for `text`, and then the nodes are that value. The error message is
/// roxmltree's and nothing is claimed of it.
#[verifier::external_body]
pub(crate) fn parse_xml(text: &str) -> (r: Result<Vec<XmlNode>, String>)
    ensures
        r is Ok <==> xml_document(text@) is Some,
        r matches Ok(nodes) ==> nodes_view(nodes@) == xml_document(text@)->0,
{
    let doc = roxmltree::Document::parse(text).map_err(|e| e.to_string())?;
    Ok(doc.descendants().map(|n| XmlNode::new(
        n.tag_name().name(),
        n.is_element(),
        n.text(),
        n.attributes().map(|a| XmlAttr::new(a.namespace().is_some(), a.name(), a.value())).collect(),
        n.parent().map(|p| p.id().get_usize()),
    )).collect())
}

/// The first node at or after `i` whose tag name is `name`.
pub open spec fn first_named_from(nodes: Seq<XmlNodeView>, name: Seq<char>, i: int) -> Option<int>
    decreases nodes.len() - i,
{
    if i < 0 || i >= nodes.len() {
        None
    } else if nodes[i].name == name {
        Some(i)
    } else {
        first_named_from(nodes, name, i + 1)
    }
}

/// `Document::descendants().find(|n| n.tag_name().name() == name)`.
pub open spec fn first_named(nodes: Seq<XmlNodeView>, name: Seq<char>) -> Option<int> {
    first_named_from(nodes, name, 0)
}

pub proof fn lemma_first_named_from(nodes: Seq<XmlNodeView>, name: Seq<char>, i: int)
    requires
        0 <= i,
    ensures
        first_named_from(nodes, name, i) matches Some(k) ==> i <= k < nodes.len()
            && nodes[k].name == name,
    decreases nodes.len() - i,
{
    if i < nodes.len() && nodes[i].name != name {
        lemma_first_named_from(nodes, name, i + 1);
    }
}

/// The index of the first node whose tag name is `name`.
pub fn first_named_exec(nodes: &Vec<XmlNode>, name: &[char]) -> (r: Option<usize>)
    ensures
        r matches Some(k) ==> first_named(nodes_view(nodes@), name@) == Some(k as int) && k
            < nodes@.len(),
        r is None ==> first_named(nodes_view(nodes@), name@) is None,
{
    let ghost nv = nodes_view(nodes@);
    let mut i: usize = 0;
    while i < nodes.len()
        invariant
            0 <= i <= nodes.len(),
            nv == nodes_view(nodes@),
            first_named(nv, name@) == first_named_from(nv, name@, i as int),
        decreases nodes.len() - i,
    {
        if eq_chars(&chars_of(nodes[i].name.as_str()), name) {
            return Some(i);
        }
        i = i + 1;
    }
    None
}

/// The indices below `n` of the children of node `p`, in document order.
pub open spec fn children_below(nodes: Seq<XmlNodeView>, p: int, n: int) -> Seq<int>
    decreases n,
{
    if n <= 0 || n > nodes.len() {
        Seq::empty()
    } else if nodes[n - 1].parent == Some(p as usize) && 0 <= p {
        children_below(nodes, p, n - 1).push(n - 1)
    } else {
        children_below(nodes, p, n - 1)
    }
}

/// The children of node `p`, in document order (`Node::children`).
pub open spec fn children(nodes: Seq<XmlNodeView>, p: int) -> Seq<int> {
    children_below(nodes, p, nodes.len() as int)
}

/// The indices of the children of node `p`.
pub fn children_exec(nodes: &Vec<XmlNode>, p: usize) -> (r: Vec<usize>)
    ensures
        r@.map_values(|k: usize| k as int) == children(nodes_view(nodes@), p as int),
        forall|k: int| 0 <= k < r@.len() ==> #[trigger] r@[k] < nodes@.len(),
{
    let ghost nv = nodes_view(nodes@);
    let mut r: Vec<usize> = Vec::new();
    let mut n: usize = 0;
    while n < nodes.len()
        invariant
            0 <= n <= nodes.len(),
            nv == nodes_view(nodes@),
            r@.map_values(|k: usize| k as int) == children_below(nv, p as int, n as int),
            forall|k: int| 0 <= k < r@.len() ==> #[trigger] r@[k] < n,
        decreases nodes.len() - n,
    {
        if nodes[n].parent == Some(p) {
            r.push(n);
        }
        n = n + 1;
        assert(r@.map_values(|k: usize| k as int) =~= children_below(nv, p as int, n as int));
    }
    r
}

/// A node's text, or empty when it has none (`text().unwrap_or("")`).
pub open spec fn text_or_empty(node: XmlNodeView) -> Seq<char> {
    match node.text {
        Some(t) => t,
        None => Seq::empty(),
    }
}

/// `node.text().unwrap_or("").trim()`.
pub open spec fn trimmed_text(node: XmlNodeView) -> Seq<char> {
    trim(text_or_empty(node))
}

pub fn trimmed_text_exec(node: &XmlNode) -> (r: Vec<char>)
    ensures
        r@ == trimmed_text(node@),
{
    match &node.text {
        Some(t) => trim_chars(&chars_of(t.as_str())),
        None => {
            let e: Vec<char> = Vec::new();
            assert(e@ =~= Seq::<char>::empty());
            proof {
                assert(crate::text::trim_start(e@) == e@);
                assert(crate::text::trim_end(e@) == e@);
            }
            e
        },
    }
}

/// The first attribute at or after `i` without a namespace named `name`.
pub open spec fn attribute_from(attrs: Seq<XmlAttrView>, name: Seq<char>, i: int) -> Option<Seq<char>>
    decreases attrs.len() - i,
{
    if i < 0 || i >= attrs.len() {
        None
    } else if !attrs[i].namespaced && attrs[i].name == name {
        Some(attrs[i].value)
    } else {
        attribute_from(attrs, name, i + 1)
    }
}

/// `Node::attribute(name)` for a name without a namespace.
pub open spec fn attribute(node: XmlNodeView, name: Seq<char>) -> Option<Seq<char>> {
    attribute_from(node.attrs, name, 0)
}

pub fn attribute_exec(node: &XmlNode, name: &[char]) -> (r: Option<Vec<char>>)
    ensures
        r matches Some(v) ==> attribute(node@, name@) == Some(v@),
        r is None ==> attribute(node@, name@) is None,
{
    let ghost av = attrs_view(node.attrs@);
    let mut i: usize = 0;
    while i < node.attrs.len()
        invariant
            0 <= i <= node.attrs.len(),
            av == attrs_view(node.attrs@),
            attribute_from(av, name@, 0) == attribute_from(av, name@, i as int),
        decreases node.attrs.len() - i,
    {
        let a = &node.attrs[i];
        if !a.namespaced && eq_chars(&chars_of(a.name.as_str()), name) {
            return Some(chars_of(a.value.as_str()));
        }
        i = i + 1;
    }
    None
}

} // verus!
