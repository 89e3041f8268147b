//! The document tree: the USJ content model, extended with source location.

use vstd::prelude::*;
use vstd::string::StringSliceAdditionalSpecFns;
use crate::span::ByteSpan;
use crate::text::str_eq;

verus! {

/// USJ node types. Names and string forms follow the specification.
#[derive(Debug, Clone, Copy, PartialEq, Eq, Hash, Structural)]
pub enum NodeKind {
    Book,
    Chapter,
    Verse,
    Para,
    Char,
    Note,
    /// Milestone — `\qt-s\*`, `\ts-s\*`. USJ spells this `ms`.
    Milestone,
    Figure,
    Sidebar,
    Periph,
    Table,
    TableRow,
    TableCell,
    Reference,
    OptBreak,
    Unknown,
    Text,
}

/// The USJ `type` string of a kind.
pub open spec fn kind_name(kind: NodeKind) -> Seq<char> {
    match kind {
        NodeKind::Book => "book"@,
        NodeKind::Chapter => "chapter"@,
        NodeKind::Verse => "verse"@,
        NodeKind::Para => "para"@,
        NodeKind::Char => "char"@,
        NodeKind::Note => "note"@,
        NodeKind::Milestone => "ms"@,
        NodeKind::Figure => "figure"@,
        NodeKind::Sidebar => "sidebar"@,
        NodeKind::Periph => "periph"@,
        NodeKind::Table => "table"@,
        NodeKind::TableRow => "table:row"@,
        NodeKind::TableCell => "table:cell"@,
        NodeKind::Reference => "ref"@,
        NodeKind::OptBreak => "optbreak"@,
        NodeKind::Unknown => "unknown"@,
        NodeKind::Text => "text"@,
    }
}

impl NodeKind {
    /// The USJ `type` string.
    pub fn as_str(self) -> (r: &'static str)
        ensures
            r@ == kind_name(self),
    {
        match self {
            NodeKind::Book => "book",
            NodeKind::Chapter => "chapter",
            NodeKind::Verse => "verse",
            NodeKind::Para => "para",
            NodeKind::Char => "char",
            NodeKind::Note => "note",
            NodeKind::Milestone => "ms",
            NodeKind::Figure => "figure",
            NodeKind::Sidebar => "sidebar",
            NodeKind::Periph => "periph",
            NodeKind::Table => "table",
            NodeKind::TableRow => "table:row",
            NodeKind::TableCell => "table:cell",
            NodeKind::Reference => "ref",
            NodeKind::OptBreak => "optbreak",
            NodeKind::Unknown => "unknown",
            NodeKind::Text => "text",
        }
    }
}

/// A marker name without its backslash.
#[derive(Debug, Clone, PartialEq, Eq, Hash, PartialOrd, Ord)]
pub struct Marker(pub String);

impl Marker {
    pub fn new(name: &str) -> (m: Self)
        ensures
            m.0@ == name@,
    {
        Marker(name.to_owned())
    }

    pub fn as_str(&self) -> (r: &str)
        ensures
            r@ == self.0@,
    {
        self.0.as_str()
    }

    /// Whether this is a custom marker in the `\z` namespace.
    pub fn is_custom(&self) -> (b: bool)
        ensures
            b == (self.0@.len() > 0 && self.0@[0] == 'z'),
    {
        let s = self.0.as_str();
        let bytes = s.as_bytes();
        if bytes.len() == 0 {
            proof {
                crate::text::lemma_empty_bytes(s);
            }
            return false;
        }
        proof {
            crate::text::lemma_first_char_ascii(s, 'z');
        }
        bytes[0] == 122u8
    }

    /// The marker as written in a document, with its backslash.
    pub fn to_string(&self) -> (r: String)
        ensures
            r@ == seq!['\\'] + self.0@,
    {
        let mut s = String::new();
        crate::fmt::push_char(&mut s, '\\');
        crate::fmt::push_str(&mut s, self.0.as_str());
        assert(Seq::<char>::empty().push('\\') == seq!['\\']);
        s
    }
}

/// A key-value attribute.
#[derive(Debug, Clone, PartialEq, Eq, Hash)]
pub struct Attribute {
    pub key: String,
    pub value: String,
}

impl Attribute {
    pub fn new(key: &str, value: &str) -> (a: Self)
        ensures
            a.key@ == key@,
            a.value@ == value@,
    {
        Attribute { key: key.to_owned(), value: value.to_owned() }
    }
}

/// A node in the document tree.
#[derive(Debug, PartialEq)]
pub struct Node {
    pub kind: NodeKind,
    /// The marker that introduced this node, without its backslash.
    pub marker: Option<Marker>,
    /// Attributes in specification vocabulary.
    pub attributes: Vec<Attribute>,
    /// Where this node sits in the source; `None` for text and optional
    /// breaks, whose positions the parser does not record.
    pub span: Option<ByteSpan>,
    /// Index of the CST node this was lowered from, where recorded.
    pub anchor_cst: Option<usize>,
    pub children: Vec<Node>,
    /// Text content, for [`NodeKind::Text`] only.
    pub text: Option<String>,
    /// Source preserved verbatim because it could not be classified.
    pub raw: Option<ByteSpan>,
}

/// A node and every descendant, parents before children.
pub open spec fn preorder(node: Node) -> Seq<Node>
    decreases node,
{
    seq![node] + preorder_all(node.children@)
}

/// The preorder walks of a list of nodes, one after another.
pub open spec fn preorder_all(nodes: Seq<Node>) -> Seq<Node>
    decreases nodes,
{
    if nodes.len() == 0 {
        Seq::empty()
    } else {
        preorder_all(nodes.drop_last()) + preorder(nodes.last())
    }
}

/// The nodes a list of references points at.
pub open spec fn nodes_of(refs: Seq<&Node>) -> Seq<Node> {
    refs.map_values(|r: &Node| *r)
}

/// The index of the first attribute with this key, if any.
pub open spec fn first_attribute(attributes: Seq<Attribute>, key: Seq<char>) -> Option<int>
    decreases attributes.len(),
{
    if attributes.len() == 0 {
        None
    } else if attributes[0].key@ == key {
        Some(0)
    } else {
        match first_attribute(attributes.drop_first(), key) {
            Some(i) => Some(i + 1),
            None => None,
        }
    }
}

impl Node {
    /// A node of `kind` with everything optional left empty.
    pub fn new(kind: NodeKind) -> (n: Self)
        ensures
            n.kind == kind,
            n.marker is None,
            n.attributes@.len() == 0,
            n.span is None,
            n.anchor_cst is None,
            n.children@.len() == 0,
            n.text is None,
            n.raw is None,
    {
        Node {
            kind,
            marker: None,
            attributes: Vec::new(),
            span: None,
            anchor_cst: None,
            children: Vec::new(),
            text: None,
            raw: None,
        }
    }

    /// The value of the first attribute with this key.
    pub fn attribute(&self, key: &str) -> (r: Option<&str>)
        ensures
            r is Some <==> first_attribute(self.attributes@, key@) is Some,
            r matches Some(v) ==> v@ == self.attributes@[first_attribute(self.attributes@, key@)->0].value@,
    {
        let mut i: usize = 0;
        assert(self.attributes@.skip(0) == self.attributes@);
        while i < self.attributes.len()
            invariant
                i <= self.attributes@.len(),
                first_attribute(self.attributes@, key@) == match first_attribute(self.attributes@.skip(i as int), key@) {
                    Some(j) => Some(j + i),
                    None => None,
                },
            decreases self.attributes.len() - i,
        {
            assert(self.attributes@.skip(i as int)[0] == self.attributes@[i as int]);
            if str_eq(self.attributes[i].key.as_str(), key) {
                return Some(self.attributes[i].value.as_str());
            }
            assert(self.attributes@.skip(i as int).drop_first() == self.attributes@.skip(i + 1));
            i += 1;
        }
        None
    }

    /// This node and every descendant, parents before children.
    pub fn descendants(&self) -> (r: Vec<&Node>)
        ensures
            nodes_of(r@) == preorder(*self),
    {
        let mut out: Vec<&Node> = Vec::new();
        collect(self, &mut out);
        out
    }
}

/// Every node of a list of trees, in document order: each tree's preorder
/// walk, one after another.
pub fn descendants_of(nodes: &[Node]) -> (r: Vec<&Node>)
    ensures
        nodes_of(r@) == preorder_all(nodes@),
{
    let mut out: Vec<&Node> = Vec::new();
    let mut i: usize = 0;
    assert(nodes@.take(0) =~= Seq::<Node>::empty());
    assert(nodes_of(out@) =~= Seq::<Node>::empty());
    while i < nodes.len()
        invariant
            i <= nodes@.len(),
            nodes_of(out@) == preorder_all(nodes@.take(i as int)),
        decreases nodes.len() - i,
    {
        collect(&nodes[i], &mut out);
        proof {
            let t = nodes@.take(i + 1);
            assert(t.drop_last() =~= nodes@.take(i as int));
            assert(t.last() == nodes@[i as int]);
        }
        i += 1;
    }
    assert(nodes@.take(nodes@.len() as int) =~= nodes@);
    out
}

fn collect<'a>(node: &'a Node, out: &mut Vec<&'a Node>)
    ensures
        nodes_of(final(out)@) == nodes_of(old(out)@) + preorder(*node),
    decreases node,
{
    out.push(node);
    let mut i: usize = 0;
    while i < node.children.len()
        invariant
            i <= node.children@.len(),
            nodes_of(out@) == nodes_of(old(out)@) + seq![*node] + preorder_all(node.children@.take(i as int)),
        decreases node.children.len() - i,
    {
        collect(&node.children[i], out);
        proof {
            let taken = node.children@.take(i + 1);
            assert(taken.drop_last() == node.children@.take(i as int));
            assert(taken.last() == node.children@[i as int]);
        }
        i += 1;
    }
    proof {
        assert(node.children@.take(node.children@.len() as int) == node.children@);
    }
}

} // verus!
