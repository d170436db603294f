//! XML documents as plain lists of nodes.

use crate::text::push_str;
use crate::xml::escaped;
use vstd::prelude::*;

verus! {

/// What a node is.
#[derive(Clone, Copy, Debug, PartialEq, Eq, Structural)]
pub enum NodeKind {
    /// The document itself.
    Root,
    /// An element.
    Element,
    /// A processing instruction.
    Instruction,
    /// A comment.
    Comment,
    /// A text.
    Text,
}

/// One node of a document. The nodes stand in document order.
#[derive(Clone, Debug, PartialEq, Eq)]
pub struct XmlNode {
    /// The place of the node that this one is a child of; 0 for the root.
    pub parent: usize,
    /// What it is.
    pub kind: NodeKind,
    /// The local name of an element.
    pub name: String,
    /// Whether the name of an element is in a namespace.
    pub namespaced: bool,
    /// The text of a text node.
    pub text: Option<String>,
}

/// One node as plain values.
#[verifier::ext_equal]
pub struct XmlNodeView {
    /// The place of the parent.
    pub parent: int,
    /// What it is.
    pub kind: NodeKind,
    /// The local name.
    pub name: Seq<char>,
    /// Whether the name is in a namespace.
    pub namespaced: bool,
    /// The text.
    pub text: Option<Seq<char>>,
}

impl View for XmlNode {
    type V = XmlNodeView;

    open spec fn view(&self) -> XmlNodeView {
        XmlNodeView {
            parent: self.parent as int,
            kind: self.kind,
            name: self.name@,
            namespaced: self.namespaced,
            text: match self.text {
                Some(t) => Some(t@),
                None => None,
            },
        }
    }
}

/// Nodes as plain values.
pub open spec fn node_views(v: Seq<XmlNode>) -> Seq<XmlNodeView> {
    Seq::new(v.len(), |i: int| v[i]@)
}

/// A piece of a plain document: one without attributes, namespaces, comments,
/// instructions and declarations.
pub enum Piece {
    /// `<name>`.
    Open(Seq<char>),
    /// `</name>`.
    Close(Seq<char>),
    /// `<name />`.
    Empty(Seq<char>),
    /// Text between tags.
    Text(Seq<char>),
}

/// How a piece is written.
pub open spec fn piece_text(p: Piece) -> Seq<char> {
    match p {
        Piece::Open(n) => "<"@ + n + ">"@,
        Piece::Close(n) => "</"@ + n + ">"@,
        Piece::Empty(n) => "<"@ + n + " />"@,
        Piece::Text(t) => escaped(t, false),
    }
}

/// How pieces are written.
pub open spec fn pieces_text(s: Seq<Piece>) -> Seq<char>
    decreases s.len(),
{
    if s.len() == 0 {
        Seq::empty()
    } else {
        pieces_text(s.drop_last()) + piece_text(s.last())
    }
}

/// Whether a name is made of ASCII letters.
pub open spec fn is_letters(n: Seq<char>) -> bool {
    n.len() > 0 && forall|i: int|
        0 <= i < n.len() ==> 'a' <= #[trigger] n[i] <= 'z' || 'A' <= n[i] <= 'Z'
}

/// Whether a text can stand in a document and comes out as it went in: there
/// is something in it, and no control characters but tabs and line feeds.
pub open spec fn is_content(t: Seq<char>) -> bool {
    t.len() > 0 && forall|i: int|
        0 <= i < t.len() ==> (#[trigger] t[i] >= ' ' || t[i] == '\t' || t[i] == '\n') && t[i] as int != 0xFFFE
            && t[i] as int != 0xFFFF
}

/// What has been read of a plain document.
#[verifier::ext_equal]
pub struct Reading {
    /// The nodes so far.
    pub nodes: Seq<XmlNodeView>,
    /// The places of the nodes that are open, the document first.
    pub open: Seq<int>,
    /// The last piece is a text.
    pub after_text: bool,
    /// Every piece was in place.
    pub ok: bool,
}

/// An element, or the document itself.
pub open spec fn element(parent: int, kind: NodeKind, name: Seq<char>, text: Option<Seq<char>>) -> XmlNodeView {
    XmlNodeView { parent, kind, name, namespaced: false, text }
}

/// Before the first piece.
pub open spec fn nothing_read() -> Reading {
    Reading {
        nodes: seq![element(0, NodeKind::Root, Seq::empty(), None)],
        open: seq![0int],
        after_text: false,
        ok: true,
    }
}

impl Reading {
    /// Whether an element can start: there is one outermost element.
    pub open spec fn element_fits(self, name: Seq<char>) -> bool {
        self.ok && is_letters(name) && (self.open.len() > 1 || self.nodes.len() == 1)
    }

    /// One more piece. The text of an element is that of its first child, if
    /// that is a text.
    pub open spec fn read(self, p: Piece) -> Reading {
        let at = self.open.last();
        match p {
            Piece::Open(n) => Reading {
                nodes: self.nodes.push(element(at, NodeKind::Element, n, None)),
                open: self.open.push(self.nodes.len() as int),
                after_text: false,
                ok: self.element_fits(n),
            },
            Piece::Empty(n) => Reading {
                nodes: self.nodes.push(element(at, NodeKind::Element, n, None)),
                open: self.open,
                after_text: false,
                ok: self.element_fits(n),
            },
            Piece::Close(n) => Reading {
                nodes: self.nodes,
                open: self.open.drop_last(),
                after_text: false,
                ok: self.ok && self.open.len() > 1 && self.nodes[at].name == n,
            },
            Piece::Text(t) => Reading {
                nodes: (if at + 1 == self.nodes.len() {
                    self.nodes.update(at, XmlNodeView { text: Some(t), ..self.nodes[at] })
                } else {
                    self.nodes
                }).push(element(at, NodeKind::Text, Seq::empty(), Some(t))),
                open: self.open,
                after_text: true,
                ok: self.ok && self.open.len() > 1 && !self.after_text && is_content(t),
            },
        }
    }
}

/// What is read of pieces.
pub open spec fn reading(s: Seq<Piece>) -> Reading
    decreases s.len(),
{
    if s.len() == 0 {
        nothing_read()
    } else {
        reading(s.drop_last()).read(s.last())
    }
}

/// Whether pieces make a whole plain document.
pub open spec fn is_plain_document(s: Seq<Piece>) -> bool {
    &&& reading(s).ok
    &&& reading(s).open.len() == 1
    &&& s.len() > 0
    &&& s.len() < 0xFFFF_FFFF
}

/// The nodes that `roxmltree::Document::parse` finds in a text, root first,
/// or nothing for a text that it refuses.
pub uninterp spec fn document_of(text: Seq<char>) -> Option<Seq<XmlNodeView>>;

/// `roxmltree::Document::parse` parses an XML document. Its nodes in document
/// order are named [`document_of`]: what each is, whose child it is, the name
/// of an element, and what `Node::text` gives. A plain document comes out as
/// the tree that its pieces write: elements without attributes and namespaces,
/// and texts with `&amp;`, `&lt;` and `&gt;` resolved.
#[verifier::external_body]
pub(crate) fn parse_document(text: &str) -> (r: Option<Vec<XmlNode>>)
    ensures
        match r {
            Some(v) => document_of(text@) == Some(node_views(v@)),
            None => document_of(text@) is None,
        },
        forall|s: Seq<Piece>|
            text@ == #[trigger] pieces_text(s) && is_plain_document(s) ==> r is Some && node_views(r->0@)
                == reading(s).nodes,
{
    let doc = roxmltree::Document::parse(text).ok()?;
    let kind_of = |n: roxmltree::Node| match n.node_type() {
        roxmltree::NodeType::Root => NodeKind::Root,
        roxmltree::NodeType::Element => NodeKind::Element,
        roxmltree::NodeType::PI => NodeKind::Instruction,
        roxmltree::NodeType::Comment => NodeKind::Comment,
        roxmltree::NodeType::Text => NodeKind::Text,
    };
    Some(doc.descendants().map(|n| XmlNode {
        parent: n.parent().map_or(0, |p| p.id().get_usize()), kind: kind_of(n),
        name: n.tag_name().name().to_owned(), namespaced: n.tag_name().namespace().is_some(),
        text: n.text().map(|t| t.to_owned()),
    }).collect())
}

/// An element of some name that is a child of a node.
pub open spec fn named_child(nodes: Seq<XmlNodeView>, parent: int, j: int, name: Seq<char>) -> bool {
    &&& 0 < j < nodes.len()
    &&& nodes[j].parent == parent
    &&& nodes[j].kind == NodeKind::Element
    &&& nodes[j].name == name
}

/// The first child of some name, at or behind a place.
pub open spec fn child_from(nodes: Seq<XmlNodeView>, parent: int, name: Seq<char>, j: int) -> Option<int>
    decreases nodes.len() - j,
{
    if j >= nodes.len() {
        None
    } else if named_child(nodes, parent, j, name) {
        Some(j)
    } else {
        child_from(nodes, parent, name, j + 1)
    }
}

/// The first child of some name.
pub open spec fn child_of(nodes: Seq<XmlNodeView>, parent: int, name: Seq<char>) -> Option<int> {
    child_from(nodes, parent, name, 1)
}

/// The texts below a node, from a place on. What stands below a node ends at
/// the first node whose parent stands before it.
pub open spec fn texts_from(nodes: Seq<XmlNodeView>, node: int, j: int) -> Seq<char>
    decreases nodes.len() - j,
{
    if j >= nodes.len() || nodes[j].parent < node {
        Seq::empty()
    } else if nodes[j].kind == NodeKind::Text && nodes[j].text is Some {
        nodes[j].text->0 + texts_from(nodes, node, j + 1)
    } else {
        texts_from(nodes, node, j + 1)
    }
}

/// All the text below a node.
pub open spec fn inner_text_of(nodes: Seq<XmlNodeView>, node: int) -> Seq<char> {
    texts_from(nodes, node, node + 1)
}

/// Whether a node is an element of some name that is a child of another.
pub(crate) fn is_named_child(nodes: &Vec<XmlNode>, parent: usize, j: usize, name: &str) -> (r: bool)
    ensures
        r == named_child(node_views(nodes@), parent as int, j as int, name@),
{
    if j == 0 || j >= nodes.len() {
        return false;
    }
    let n: &XmlNode = &nodes[j];
    assert(node_views(nodes@)[j as int] == n@);
    match n.kind {
        NodeKind::Element => {
            let own: Vec<char> = crate::text::chars_of(n.name.as_str());
            n.parent == parent && crate::text::is_text(own.as_slice(), name)
        },
        _ => false,
    }
}

/// The first child of some name.
pub(crate) fn child(nodes: &Vec<XmlNode>, parent: usize, name: &str) -> (r: Option<usize>)
    ensures
        match r {
            Some(j) => child_of(node_views(nodes@), parent as int, name@) == Some(j as int) && j < nodes@.len(),
            None => child_of(node_views(nodes@), parent as int, name@) is None,
        },
{
    let mut j: usize = 1;
    while j < nodes.len()
        invariant
            1 <= j,
            child_of(node_views(nodes@), parent as int, name@) == child_from(
                node_views(nodes@),
                parent as int,
                name@,
                j as int,
            ),
        decreases nodes@.len() - j,
    {
        if is_named_child(nodes, parent, j, name) {
            return Some(j);
        }
        j = j + 1;
    }
    None
}

/// All the text below a node.
pub(crate) fn inner_text(nodes: &Vec<XmlNode>, node: usize) -> (r: Vec<char>)
    requires
        node < nodes@.len(),
    ensures
        r@ == inner_text_of(node_views(nodes@), node as int),
{
    let ghost all = node_views(nodes@);
    let mut out: Vec<char> = Vec::new();
    let n: usize = nodes.len();
    assert(node < n);
    let mut j: usize = node + 1;
    assert(out@ + inner_text_of(all, node as int) =~= inner_text_of(all, node as int));
    while j < nodes.len() && nodes[j].parent >= node
        invariant
            all == node_views(nodes@),
            inner_text_of(all, node as int) == out@ + texts_from(all, node as int, j as int),
        decreases nodes@.len() - j,
    {
        let n: &XmlNode = &nodes[j];
        assert(all[j as int] == n@);
        let ghost before = out@;
        match n.kind {
            NodeKind::Text => match &n.text {
                Some(t) => {
                    push_str(&mut out, t.as_str());
                },
                None => {},
            },
            _ => {},
        }
        proof {
            assert(out@ + texts_from(all, node as int, j + 1) =~= before + texts_from(
                all,
                node as int,
                j as int,
            ));
        }
        j = j + 1;
    }
    proof {
        if j < nodes@.len() {
            assert(all[j as int] == nodes@[j as int]@);
        }
        assert(out@ + texts_from(all, node as int, j as int) =~= out@);
    }
    out
}

} // verus!
