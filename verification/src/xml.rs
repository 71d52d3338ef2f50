//! XML documents as the list of their nodes in document order.

use vstd::prelude::*;

use crate::text;

verus! {

/// An attribute of an element.
pub struct Attr {
    /// Whether the name belongs to a namespace.
    pub scoped: bool,
    pub name: String,
    pub value: String,
}

/// A node of a document. `depth` counts the node and its ancestors; `tag` is the local name of an
/// element and empty for every other node; `text` is the leading text of an element, and its own
/// text of a text or a comment.
pub struct Node {
    pub depth: usize,
    pub tag: String,
    pub attrs: Vec<Attr>,
    pub text: Option<String>,
}

/// The view of an `Attr`.
pub struct AttrView {
    pub scoped: bool,
    pub name: Seq<char>,
    pub value: Seq<char>,
}

/// The view of a `Node`.
pub struct NodeView {
    pub depth: int,
    pub tag: Seq<char>,
    pub attrs: Seq<AttrView>,
    pub text: Option<Seq<char>>,
}

impl View for Attr {
    type V = AttrView;

    open spec fn view(&self) -> AttrView {
        AttrView { scoped: self.scoped, name: self.name@, value: self.value@ }
    }
}

impl View for Node {
    type V = NodeView;

    open spec fn view(&self) -> NodeView {
        NodeView {
            depth: self.depth as int,
            tag: self.tag@,
            attrs: Seq::new(self.attrs@.len(), |i: int| self.attrs@[i]@),
            text: match self.text {
                Some(t) => Some(t@),
                None => None,
            },
        }
    }
}

/// The views of the nodes in `v`.
pub open spec fn node_views(v: Seq<Node>) -> Seq<NodeView> {
    Seq::new(v.len(), |i: int| v[i]@)
}

/// The nodes that roxmltree finds in a text, in document order; `None` where the text is no
/// well-formed document.
pub uninterp spec fn document(xml: Seq<char>) -> Option<Seq<NodeView>>;

/// `roxmltree::Document::parse`, with the nodes of the document (`Document::descendants`) turned
/// into plain values: what a node is, what stands in it and how deep it lies. Which texts are
/// well-formed and what nodes they hold is XML's grammar and is not spelled out here.
#[verifier::external_body]
pub(crate) fn parse(xml: &str) -> (r: Option<Vec<Node>>)
    ensures
        match r {
            Some(nodes) => document(xml@) == Some(node_views(nodes@)),
            None => document(xml@) is None,
        },
{
    let doc = roxmltree::Document::parse(xml).ok()?;
    let attr = |a: roxmltree::Attribute<'_, '_>| Attr {
        scoped: a.namespace().is_some(),
        name: a.name().to_owned(),
        value: a.value().to_owned(),
    };
    Some(doc.descendants().map(|n| Node {
        depth: n.ancestors().count(),
        tag: n.tag_name().name().to_owned(),
        attrs: n.attributes().map(attr).collect(),
        text: n.text().map(str::to_owned),
    }).collect())
}

// ---------------------------------------------------------------- attributes and texts

/// The value of the first attribute without a namespace that is called `name`, from the `from`th
/// attribute on.
pub open spec fn attr_from(attrs: Seq<AttrView>, name: Seq<char>, from: int) -> Option<Seq<char>>
    decreases attrs.len() - from,
{
    if from < 0 || from >= attrs.len() {
        None
    } else if !attrs[from].scoped && attrs[from].name == name {
        Some(attrs[from].value)
    } else {
        attr_from(attrs, name, from + 1)
    }
}

/// The value of the attribute `name` of a node.
pub open spec fn attr(n: NodeView, name: Seq<char>) -> Option<Seq<char>> {
    attr_from(n.attrs, name, 0)
}

/// The value of the attribute `name`, or `other` where there is none.
pub open spec fn attr_or(n: NodeView, name: Seq<char>, other: Seq<char>) -> Seq<char> {
    match attr(n, name) {
        Some(v) => v,
        None => other,
    }
}

/// A node's text, or nothing.
pub open spec fn text_or_empty(n: NodeView) -> Seq<char> {
    match n.text {
        Some(t) => t,
        None => Seq::empty(),
    }
}

/// The value of the attribute `name` of `n`.
pub fn attribute(n: &Node, name: &str) -> (r: Option<String>)
    ensures
        match r {
            Some(v) => attr(n@, name@) == Some(v@),
            None => attr(n@, name@) is None,
        },
{
    let mut i: usize = 0;
    while i < n.attrs.len()
        invariant
            i <= n.attrs@.len(),
            attr(n@, name@) == attr_from(n@.attrs, name@, i as int),
        decreases n.attrs@.len() - i,
    {
        assert(n@.attrs[i as int] == n.attrs@[i as int]@);
        if !n.attrs[i].scoped && text::same(n.attrs[i].name.as_str(), name) {
            return Some(n.attrs[i].value.clone());
        }
        i += 1;
    }
    None
}

/// The value of the attribute `name` of `n`, or `other`.
pub fn attribute_or(n: &Node, name: &str, other: &str) -> (r: String)
    ensures
        r@ == attr_or(n@, name@, other@),
{
    match attribute(n, name) {
        Some(v) => v,
        None => other.to_owned(),
    }
}

/// The text of `n`, or nothing.
pub fn text_of(n: &Node) -> (r: String)
    ensures
        r@ == text_or_empty(n@),
{
    match &n.text {
        Some(t) => t.clone(),
        None => String::new(),
    }
}

// ---------------------------------------------------------------- finding nodes

/// The end of the part of the list that holds node `i` and everything below it.
pub open spec fn subtree_end(nodes: Seq<NodeView>, i: int, from: int) -> int
    decreases nodes.len() - from,
{
    if from >= nodes.len() || nodes[from].depth <= nodes[i].depth {
        from
    } else {
        subtree_end(nodes, i, from + 1)
    }
}

/// The end of the part of the list that holds node `i` and everything below it.
pub open spec fn end_of(nodes: Seq<NodeView>, i: int) -> int {
    subtree_end(nodes, i, i + 1)
}

/// The first element called `tag` among the nodes `from..to`, or -1.
pub open spec fn first_tagged(nodes: Seq<NodeView>, tag: Seq<char>, from: int, to: int) -> int
    decreases to - from,
{
    if from >= to {
        -1
    } else if nodes[from].tag == tag {
        from
    } else {
        first_tagged(nodes, tag, from + 1, to)
    }
}

/// The first node called `tag` just below a node of depth `depth` among the nodes `from..to`,
/// or -1.
pub open spec fn first_child(nodes: Seq<NodeView>, tag: Seq<char>, depth: int, from: int, to: int) -> int
    decreases to - from,
{
    if from >= to {
        -1
    } else if nodes[from].depth == depth + 1 && nodes[from].tag == tag {
        from
    } else {
        first_child(nodes, tag, depth, from + 1, to)
    }
}

/// The first child of node `i` that is called `tag`, or -1.
pub open spec fn child(nodes: Seq<NodeView>, tag: Seq<char>, i: int) -> int {
    first_child(nodes, tag, nodes[i].depth, i + 1, end_of(nodes, i))
}

/// The text of the first element called `tag` in the document.
pub open spec fn document_text(nodes: Seq<NodeView>, tag: Seq<char>) -> Seq<char> {
    let i = first_tagged(nodes, tag, 0, nodes.len() as int);
    if i < 0 {
        Seq::empty()
    } else {
        text_or_empty(nodes[i])
    }
}

/// The text of the first child of node `i` that is called `tag`.
pub open spec fn child_text(nodes: Seq<NodeView>, tag: Seq<char>, i: int) -> Seq<char> {
    let c = child(nodes, tag, i);
    if c < 0 {
        Seq::empty()
    } else {
        text_or_empty(nodes[c])
    }
}

/// The end of the part of the list that holds node `i` and everything below it.
pub fn end_after(nodes: &Vec<Node>, i: usize) -> (r: usize)
    requires
        i < nodes.len(),
    ensures
        r == end_of(node_views(nodes@), i as int),
        i < r <= nodes@.len(),
{
    let ghost nv = node_views(nodes@);
    let mut k: usize = i + 1;
    while k < nodes.len() && nodes[k].depth > nodes[i].depth
        invariant
            nv == node_views(nodes@),
            i < k <= nodes@.len(),
            end_of(nv, i as int) == subtree_end(nv, i as int, k as int),
        decreases nodes@.len() - k,
    {
        k += 1;
    }
    k
}

/// The first element called `tag` among the nodes `from..to`.
pub fn find_tagged(nodes: &Vec<Node>, tag: &str, from: usize, to: usize) -> (r: Option<usize>)
    requires
        to <= nodes@.len(),
    ensures
        match r {
            Some(i) => first_tagged(node_views(nodes@), tag@, from as int, to as int) == i && from
                <= i < to,
            None => first_tagged(node_views(nodes@), tag@, from as int, to as int) == -1,
        },
{
    let ghost nv = node_views(nodes@);
    let mut k: usize = from;
    while k < to
        invariant
            nv == node_views(nodes@),
            from <= k,
            to <= nodes@.len(),
            first_tagged(nv, tag@, from as int, to as int) == first_tagged(
                nv,
                tag@,
                k as int,
                to as int,
            ),
        decreases to - k,
    {
        if text::same(nodes[k].tag.as_str(), tag) {
            return Some(k);
        }
        k += 1;
    }
    None
}

/// The first child of node `i` that is called `tag`.
pub fn find_child(nodes: &Vec<Node>, tag: &str, i: usize) -> (r: Option<usize>)
    requires
        i < nodes.len(),
    ensures
        match r {
            Some(c) => child(node_views(nodes@), tag@, i as int) == c && i < c < nodes@.len(),
            None => child(node_views(nodes@), tag@, i as int) == -1,
        },
{
    let ghost nv = node_views(nodes@);
    let end = end_after(nodes, i);
    let mut k: usize = i + 1;
    while k < end
        invariant
            nv == node_views(nodes@),
            i < k <= end <= nodes@.len(),
            end == end_of(nv, i as int),
            child(nv, tag@, i as int) == first_child(
                nv,
                tag@,
                nv[i as int].depth,
                k as int,
                end as int,
            ),
        decreases end - k,
    {
        if nodes[k].depth > 0 && nodes[k].depth - 1 == nodes[i].depth && text::same(nodes[k].tag.as_str(), tag) {
            return Some(k);
        }
        k += 1;
    }
    None
}

/// The text of the first element called `tag` in the document.
pub fn text_in_document(nodes: &Vec<Node>, tag: &str) -> (r: String)
    ensures
        r@ == document_text(node_views(nodes@), tag@),
{
    match find_tagged(nodes, tag, 0, nodes.len()) {
        Some(i) => text_of(&nodes[i]),
        None => String::new(),
    }
}

/// The text of the first child of node `i` that is called `tag`.
pub fn text_of_child(nodes: &Vec<Node>, tag: &str, i: usize) -> (r: String)
    requires
        i < nodes.len(),
    ensures
        r@ == child_text(node_views(nodes@), tag@, i as int),
{
    match find_child(nodes, tag, i) {
        Some(c) => text_of(&nodes[c]),
        None => String::new(),
    }
}

// ---------------------------------------------------------------- laws

/// Node `j` lies below node `i`: every node from behind `i` up to it is deeper than `i`.
pub open spec fn is_below(nodes: Seq<NodeView>, i: int, j: int) -> bool {
    &&& 0 <= i < j < nodes.len()
    &&& forall|k: int| i < k <= j ==> (#[trigger] nodes[k]).depth > nodes[i].depth
}

/// Node `j` is a child of node `i` that is called `tag`.
pub open spec fn is_child(nodes: Seq<NodeView>, i: int, j: int, tag: Seq<char>) -> bool {
    is_below(nodes, i, j) && nodes[j].depth == nodes[i].depth + 1 && nodes[j].tag == tag
}

/// Node `i` is the first one of the document that is called `tag`.
pub open spec fn is_first(nodes: Seq<NodeView>, i: int, tag: Seq<char>) -> bool {
    &&& 0 <= i < nodes.len()
    &&& nodes[i].tag == tag
    &&& forall|k: int| 0 <= k < i ==> (#[trigger] nodes[k]).tag != tag
}

/// Node `j` is the first child of node `i` that is called `tag`.
pub open spec fn is_first_child(nodes: Seq<NodeView>, i: int, j: int, tag: Seq<char>) -> bool {
    &&& is_child(nodes, i, j, tag)
    &&& forall|k: int| i < k < j ==> !#[trigger] is_child(nodes, i, k, tag)
}

proof fn lemma_subtree(nodes: Seq<NodeView>, i: int, from: int)
    requires
        0 <= i < from <= nodes.len(),
        forall|k: int| i < k < from ==> (#[trigger] nodes[k]).depth > nodes[i].depth,
    ensures
        from <= subtree_end(nodes, i, from) <= nodes.len(),
        forall|k: int|
            i < k < subtree_end(nodes, i, from) ==> (#[trigger] nodes[k]).depth > nodes[i].depth,
        subtree_end(nodes, i, from) < nodes.len() ==> nodes[subtree_end(nodes, i, from)].depth
            <= nodes[i].depth,
    decreases nodes.len() - from,
{
    if from < nodes.len() && nodes[from].depth > nodes[i].depth {
        lemma_subtree(nodes, i, from + 1);
    }
}

/// What lies below a node follows it without a gap, up to its end.
pub proof fn law_what_lies_below_follows(nodes: Seq<NodeView>, i: int, j: int)
    requires
        0 <= i < nodes.len(),
    ensures
        i < end_of(nodes, i) <= nodes.len(),
        is_below(nodes, i, j) <==> i < j < end_of(nodes, i),
{
    lemma_subtree(nodes, i, i + 1);
    let end = end_of(nodes, i);
    if is_below(nodes, i, j) && end <= j {
        assert(nodes[end].depth > nodes[i].depth);
    }
}

proof fn lemma_first_child(nodes: Seq<NodeView>, tag: Seq<char>, i: int, from: int)
    requires
        0 <= i < from <= end_of(nodes, i),
        i < nodes.len(),
        forall|k: int| i < k < from ==> !#[trigger] is_child(nodes, i, k, tag),
    ensures
        ({
            let c = first_child(nodes, tag, nodes[i].depth, from, end_of(nodes, i));
            &&& c >= 0 ==> is_first_child(nodes, i, c, tag)
            &&& c < 0 ==> c == -1 && forall|k: int| !#[trigger] is_child(nodes, i, k, tag)
        }),
    decreases end_of(nodes, i) - from,
{
    let end = end_of(nodes, i);
    if from < end {
        law_what_lies_below_follows(nodes, i, from);
        if !(nodes[from].depth == nodes[i].depth + 1 && nodes[from].tag == tag) {
            lemma_first_child(nodes, tag, i, from + 1);
        }
    } else {
        assert forall|k: int| !#[trigger] is_child(nodes, i, k, tag) by {
            law_what_lies_below_follows(nodes, i, k);
        }
    }
}

/// The child that is found is the first one of its name, and none is found only where there is
/// none.
pub proof fn law_first_child_is_found(nodes: Seq<NodeView>, tag: Seq<char>, i: int)
    requires
        0 <= i < nodes.len(),
    ensures
        child(nodes, tag, i) >= 0 ==> is_first_child(nodes, i, child(nodes, tag, i), tag),
        child(nodes, tag, i) < 0 ==> child(nodes, tag, i) == -1 && forall|k: int| !#[trigger]
            is_child(nodes, i, k, tag),
        forall|k: int| #[trigger]
            is_first_child(nodes, i, k, tag) ==> child(nodes, tag, i) == k,
{
    law_what_lies_below_follows(nodes, i, i);
    lemma_first_child(nodes, tag, i, i + 1);
    let c = child(nodes, tag, i);
    assert forall|k: int| #[trigger] is_first_child(nodes, i, k, tag) implies c == k by {
        assert(is_child(nodes, i, k, tag));
        if c >= 0 && c < k {
            assert(is_child(nodes, i, c, tag));
        }
    }
}

proof fn lemma_first_tagged(nodes: Seq<NodeView>, tag: Seq<char>, from: int)
    requires
        0 <= from <= nodes.len(),
        forall|k: int| 0 <= k < from ==> (#[trigger] nodes[k]).tag != tag,
    ensures
        ({
            let f = first_tagged(nodes, tag, from, nodes.len() as int);
            &&& f >= 0 ==> is_first(nodes, f, tag)
            &&& f < 0 ==> f == -1 && forall|k: int|
                0 <= k < nodes.len() ==> (#[trigger] nodes[k]).tag != tag
        }),
    decreases nodes.len() - from,
{
    if from < nodes.len() && nodes[from].tag != tag {
        lemma_first_tagged(nodes, tag, from + 1);
    }
}

/// The element that is found is the first one of its name, and none is found only where there is
/// none.
pub proof fn law_first_element_is_found(nodes: Seq<NodeView>, tag: Seq<char>)
    ensures
        ({
            let f = first_tagged(nodes, tag, 0, nodes.len() as int);
            &&& f >= 0 ==> is_first(nodes, f, tag)
            &&& f < 0 ==> f == -1 && forall|k: int|
                0 <= k < nodes.len() ==> (#[trigger] nodes[k]).tag != tag
            &&& forall|k: int| #[trigger] is_first(nodes, k, tag) ==> f == k
        }),
{
    lemma_first_tagged(nodes, tag, 0);
    let f = first_tagged(nodes, tag, 0, nodes.len() as int);
    assert forall|k: int| #[trigger] is_first(nodes, k, tag) implies f == k by {
        if f >= 0 && f < k {
            assert(nodes[f].tag != tag);
        }
        if k < f {
            assert(nodes[k].tag != tag);
        }
        if f < 0 {
            assert(nodes[k].tag != tag);
        }
    }
}

/// Attribute `k` is the first one of a node that is called `name` and belongs to no namespace.
pub open spec fn is_first_attr(n: NodeView, name: Seq<char>, k: int) -> bool {
    &&& 0 <= k < n.attrs.len()
    &&& n.attrs[k].name == name && !n.attrs[k].scoped
    &&& forall|j: int| 0 <= j < k ==> (#[trigger] n.attrs[j]).name != name || n.attrs[j].scoped
}

proof fn lemma_attr_from(n: NodeView, name: Seq<char>, from: int)
    requires
        0 <= from <= n.attrs.len(),
        forall|j: int|
            0 <= j < from ==> (#[trigger] n.attrs[j]).name != name || n.attrs[j].scoped,
    ensures
        match attr_from(n.attrs, name, from) {
            Some(v) => exists|k: int| #[trigger]
                is_first_attr(n, name, k) && n.attrs[k].value == v,
            None => forall|k: int| !#[trigger] is_first_attr(n, name, k),
        },
    decreases n.attrs.len() - from,
{
    if from < n.attrs.len() {
        if n.attrs[from].name == name && !n.attrs[from].scoped {
            assert(is_first_attr(n, name, from));
        } else {
            lemma_attr_from(n, name, from + 1);
        }
    }
}

/// An attribute is the first of its name that belongs to no namespace, and is missing only where
/// there is none.
pub proof fn law_first_attribute_is_read(n: NodeView, name: Seq<char>)
    ensures
        forall|k: int| #[trigger]
            is_first_attr(n, name, k) ==> attr(n, name) == Some(n.attrs[k].value),
        attr(n, name) is None <==> forall|k: int| !#[trigger] is_first_attr(n, name, k),
        forall|other: Seq<char>| #[trigger]
            attr_or(n, name, other) == match attr(n, name) {
                Some(v) => v,
                None => other,
            },
{
    lemma_attr_from(n, name, 0);
    assert forall|k: int| #[trigger] is_first_attr(n, name, k) implies attr(n, name) == Some(
        n.attrs[k].value,
    ) by {
        match attr(n, name) {
            Some(v) => {
                let j = choose|j: int| #[trigger]
                    is_first_attr(n, name, j) && n.attrs[j].value == v;
                if j < k {
                    assert(n.attrs[j].name != name || n.attrs[j].scoped);
                }
                if k < j {
                    assert(n.attrs[k].name != name || n.attrs[k].scoped);
                }
            },
            None => {},
        }
    }
}

} // verus!
