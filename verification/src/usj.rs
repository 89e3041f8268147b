//! The document tree in the USJ content model, as a value of this library:
//! text is a bare string, every other node an object with its `type`, its
//! `marker`, its attributes as properties and its children as `content`
//! when it has any. Spans are left out; USJ has no notion of them.

use vstd::prelude::*;
use crate::backend::pipes::{lemma_view_at, node_view, views_of, NodeView};
use crate::node::{kind_name, Node, NodeKind};
use crate::fmt::push_str;

verus! {

/// A USJ value.
#[derive(Debug, PartialEq, Eq)]
pub enum Usj {
    Text(String),
    Object(Vec<(String, Usj)>),
    List(Vec<Usj>),
}

/// A USJ value as contracts speak of it.
pub enum UsjView {
    Text(Seq<char>),
    Object(Seq<(Seq<char>, UsjView)>),
    List(Seq<UsjView>),
}

/// The view of a USJ value.
pub open spec fn usj_view(u: Usj) -> UsjView
    decreases u,
{
    match u {
        Usj::Text(t) => UsjView::Text(t@),
        Usj::Object(fields) => UsjView::Object(fields_view(fields@)),
        Usj::List(items) => UsjView::List(list_view(items@)),
    }
}

pub open spec fn fields_view(fs: Seq<(String, Usj)>) -> Seq<(Seq<char>, UsjView)>
    decreases fs,
{
    if fs.len() == 0 {
        Seq::empty()
    } else {
        fields_view(fs.drop_last()).push((fs.last().0@, usj_view(fs.last().1)))
    }
}

pub open spec fn list_view(us: Seq<Usj>) -> Seq<UsjView>
    decreases us,
{
    if us.len() == 0 {
        Seq::empty()
    } else {
        list_view(us.drop_last()).push(usj_view(us.last()))
    }
}

/// A node in USJ.
pub open spec fn node_usj(v: NodeView) -> UsjView
    decreases v,
{
    if v.kind == NodeKind::Text {
        UsjView::Text(match v.text { Some(t) => t, None => Seq::empty() })
    } else {
        let head = seq![("type"@, UsjView::Text(kind_name(v.kind)))];
        let marker = match v.marker {
            Some(m) => seq![("marker"@, UsjView::Text(m))],
            None => Seq::empty(),
        };
        let content = if v.children.len() > 0 {
            seq![("content"@, UsjView::List(nodes_usj(v.children)))]
        } else {
            Seq::empty()
        };
        UsjView::Object(head + marker + attributes_usj(v.attributes) + content)
    }
}

/// Attributes as USJ properties.
pub open spec fn attributes_usj(a: Seq<(Seq<char>, Seq<char>)>) -> Seq<(Seq<char>, UsjView)> {
    a.map_values(|p: (Seq<char>, Seq<char>)| (p.0, UsjView::Text(p.1)))
}

/// A list of nodes in USJ.
pub open spec fn nodes_usj(vs: Seq<NodeView>) -> Seq<UsjView>
    decreases vs,
{
    if vs.len() == 0 {
        Seq::empty()
    } else {
        nodes_usj(vs.drop_last()).push(node_usj(vs.last()))
    }
}

/// The USJ document: its type, the USJ version (3.1) and its content.
pub open spec fn document_usj(vs: Seq<NodeView>) -> UsjView {
    UsjView::Object(seq![
        ("type"@, UsjView::Text("USJ"@)),
        ("version"@, UsjView::Text("3.1"@)),
        ("content"@, UsjView::List(nodes_usj(vs))),
    ])
}

proof fn lemma_fields_push(fs: Seq<(String, Usj)>, f: (String, Usj))
    ensures
        fields_view(fs.push(f)) == fields_view(fs).push((f.0@, usj_view(f.1))),
{
    assert(fs.push(f).drop_last() =~= fs);
}

proof fn lemma_list_push(us: Seq<Usj>, u: Usj)
    ensures
        list_view(us.push(u)) == list_view(us).push(usj_view(u)),
{
    assert(us.push(u).drop_last() =~= us);
}

fn text_value(s: &str) -> (r: Usj)
    ensures
        usj_view(r) == UsjView::Text(s@),
{
    let mut t = String::new();
    push_str(&mut t, s);
    assert(Seq::<char>::empty() + s@ =~= s@);
    Usj::Text(t)
}

fn key(s: &str) -> (r: String)
    ensures
        r@ == s@,
{
    let mut t = String::new();
    push_str(&mut t, s);
    assert(Seq::<char>::empty() + s@ =~= s@);
    t
}

/// One node in USJ.
pub fn node_to_usj(node: &Node) -> (r: Usj)
    ensures
        usj_view(r) == node_usj(node_view(*node)),
    decreases node,
{
    proof {
        reveal_strlit("type");
        reveal_strlit("marker");
        reveal_strlit("content");
        reveal_strlit("");
    }
    if node.kind == NodeKind::Text {
        let r = match &node.text {
            Some(t) => text_value(t.as_str()),
            None => {
                assert(""@ =~= Seq::<char>::empty());
                text_value("")
            },
        };
        assert(usj_view(r) == node_usj(node_view(*node)));
        return r;
    }
    let mut fields: Vec<(String, Usj)> = Vec::new();
    let first = (key("type"), text_value(node.kind.as_str()));
    let ghost f0 = first;
    fields.push(first);
    let ghost head = seq![("type"@, UsjView::Text(kind_name(node.kind)))];
    proof {
        lemma_fields_push(Seq::empty(), f0);
        assert(fields@ =~= Seq::<(String, Usj)>::empty().push(f0));
        assert(fields_view(Seq::<(String, Usj)>::empty()) =~= Seq::<(Seq<char>, UsjView)>::empty());
        assert(fields_view(fields@) =~= head);
    }
    let ghost marker = match node_view(*node).marker {
        Some(m) => seq![("marker"@, UsjView::Text(m))],
        None => Seq::<(Seq<char>, UsjView)>::empty(),
    };
    match &node.marker {
        Some(m) => {
            let ghost before = fields@;
            let f = (key("marker"), text_value(m.as_str()));
            let ghost fg = f;
            fields.push(f);
            proof {
                lemma_fields_push(before, fg);
                assert(fields@ =~= before.push(fg));
            }
        },
        None => {},
    }
    assert(fields_view(fields@) =~= head + marker);
    let ghost av = node_view(*node).attributes;
    let mut i: usize = 0;
    while i < node.attributes.len()
        invariant
            i <= node.attributes@.len(),
            av == node_view(*node).attributes,
            av.len() == node.attributes@.len(),
            fields_view(fields@) == head + marker + attributes_usj(av.take(i as int)),
        decreases node.attributes.len() - i,
    {
        let a = &node.attributes[i];
        let ghost before = fields@;
        let f = (key(a.key.as_str()), text_value(a.value.as_str()));
        let ghost fg = f;
        fields.push(f);
        proof {
            lemma_fields_push(before, fg);
            assert(fields@ =~= before.push(fg));
            assert(av[i as int] == (a.key@, a.value@));
            assert(attributes_usj(av.take(i + 1)) =~= attributes_usj(av.take(i as int)).push((a.key@, UsjView::Text(a.value@))));
        }
        i += 1;
    }
    assert(av.take(av.len() as int) =~= av);
    if node.children.len() > 0 {
        let kids = nodes_to_usj(&node.children);
        let ghost before = fields@;
        let f = (key("content"), Usj::List(kids));
        let ghost fg = f;
        fields.push(f);
        proof {
            lemma_fields_push(before, fg);
            assert(fields@ =~= before.push(fg));
            crate::backend::pipes::lemma_views_len(node.children@);
        }
    } else {
        proof {
            crate::backend::pipes::lemma_views_len(node.children@);
        }
    }
    let ghost content = if node_view(*node).children.len() > 0 {
        seq![("content"@, UsjView::List(nodes_usj(node_view(*node).children)))]
    } else {
        Seq::<(Seq<char>, UsjView)>::empty()
    };
    assert(fields_view(fields@) =~= head + marker + attributes_usj(av) + content);
    let r = Usj::Object(fields);
    assert(usj_view(r) == UsjView::Object(fields_view(fields@)));
    assert(usj_view(r) == node_usj(node_view(*node)));
    r
}

/// A list of nodes in USJ.
pub fn nodes_to_usj(nodes: &Vec<Node>) -> (r: Vec<Usj>)
    ensures
        list_view(r@) == nodes_usj(views_of(nodes@)),
    decreases nodes@,
{
    let mut out: Vec<Usj> = Vec::new();
    let mut i: usize = 0;
    assert(nodes@.take(0) =~= Seq::<Node>::empty());
    while i < nodes.len()
        invariant
            i <= nodes@.len(),
            list_view(out@) == nodes_usj(views_of(nodes@.take(i as int))),
        decreases nodes.len() - i,
    {
        let u = node_to_usj(&nodes[i]);
        let ghost before = out@;
        let ghost ug = u;
        out.push(u);
        proof {
            crate::backend::pipes::lemma_views_take(nodes@, i as int);
            lemma_list_push(before, ug);
            assert(out@ =~= before.push(ug));
            let pre = views_of(nodes@.take(i as int));
            let nxt = pre.push(node_view(nodes@[i as int]));
            assert(nxt.drop_last() =~= pre);
        }
        i += 1;
    }
    assert(nodes@.take(nodes@.len() as int) =~= nodes@);
    out
}

/// A document tree as USJ.
pub fn to_usj(content: &Vec<Node>) -> (r: Usj)
    ensures
        usj_view(r) == document_usj(views_of(content@)),
{
    proof {
        reveal_strlit("type");
        reveal_strlit("version");
        reveal_strlit("content");
        reveal_strlit("USJ");
        reveal_strlit("3.1");
    }
    let mut fields: Vec<(String, Usj)> = Vec::new();
    let a = (key("type"), text_value("USJ"));
    let b = (key("version"), text_value("3.1"));
    let c = (key("content"), Usj::List(nodes_to_usj(content)));
    let ghost (ag, bg, cg) = (a, b, c);
    fields.push(a);
    fields.push(b);
    fields.push(c);
    proof {
        let e = Seq::<(String, Usj)>::empty();
        assert(fields@ =~= e.push(ag).push(bg).push(cg));
        lemma_fields_push(e, ag);
        lemma_fields_push(e.push(ag), bg);
        lemma_fields_push(e.push(ag).push(bg), cg);
        assert(fields_view(e) =~= Seq::<(Seq<char>, UsjView)>::empty());
    }
    let r = Usj::Object(fields);
    assert(fields_view(fields@) =~= seq![
        ("type"@, UsjView::Text("USJ"@)),
        ("version"@, UsjView::Text("3.1"@)),
        ("content"@, UsjView::List(nodes_usj(views_of(content@)))),
    ]);
    assert(usj_view(r) == document_usj(views_of(content@)));
    r
}

/// USJ keeps document order: a list of nodes becomes a list of the same
/// length whose `k`th value is the USJ of the `k`th node, so a verse comes
/// before the text that follows it and a book before its chapters.
pub proof fn usj_keeps_document_order(vs: Seq<NodeView>)
    ensures
        nodes_usj(vs).len() == vs.len(),
        forall|k: int| 0 <= k < vs.len() ==> #[trigger] nodes_usj(vs)[k] == node_usj(vs[k]),
    decreases vs.len(),
{
    if vs.len() > 0 {
        usj_keeps_document_order(vs.drop_last());
        assert forall|k: int| 0 <= k < vs.len() implies #[trigger] nodes_usj(vs)[k] == node_usj(vs[k]) by {
            if k < vs.len() - 1 {
                assert(vs.drop_last()[k] == vs[k]);
            }
        }
    }
}

/// The properties of a USJ object; nothing for other values.
pub open spec fn properties(u: UsjView) -> Seq<(Seq<char>, UsjView)> {
    match u {
        UsjView::Object(f) => f,
        _ => Seq::empty(),
    }
}

/// How one node reads in USJ: text as a bare string; anything else as an
/// object whose first property is its `type`, then its `marker` if it has
/// one, then each of its attributes in order as a property of that name,
/// then its children as `content` if it has any, and nothing more.
pub proof fn a_node_in_usj(v: NodeView)
    ensures
        v.kind == NodeKind::Text ==> node_usj(v) == UsjView::Text(match v.text {
            Some(t) => t,
            None => Seq::empty(),
        }),
        v.kind != NodeKind::Text ==> {
            let f = properties(node_usj(v));
            let base: int = if v.marker is Some { 2 } else { 1 };
            &&& node_usj(v) is Object
            &&& f.len() == base + v.attributes.len() + (if v.children.len() > 0 { 1int } else { 0int })
            &&& f[0] == ("type"@, UsjView::Text(kind_name(v.kind)))
            &&& (v.marker is Some ==> f[1] == ("marker"@, UsjView::Text(v.marker->0)))
            &&& forall|i: int| 0 <= i < v.attributes.len()
                ==> #[trigger] f[base + i] == (v.attributes[i].0, UsjView::Text(v.attributes[i].1))
            &&& (v.children.len() > 0 ==> f[f.len() - 1] == ("content"@, UsjView::List(nodes_usj(v.children))))
        },
{
    if v.kind != NodeKind::Text {
        let f = properties(node_usj(v));
        let base: int = if v.marker is Some { 2 } else { 1 };
        assert forall|i: int| 0 <= i < v.attributes.len()
            implies #[trigger] f[base + i] == (v.attributes[i].0, UsjView::Text(v.attributes[i].1)) by {
            assert(attributes_usj(v.attributes)[i] == (v.attributes[i].0, UsjView::Text(v.attributes[i].1)));
        }
    }
}

} // verus!
