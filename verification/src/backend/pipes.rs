//! Putting back text the parser mistook for attributes.
//!
//! The lexer treats every `|` as the start of an attribute block, whatever
//! encloses it, and a paragraph has nowhere to keep attributes, so the text
//! after a `|` in running text is dropped from the tree. In several Indic
//! scripts `|` is the danda, the full stop, so this is ordinary Scripture
//! losing words. The attribute tokens are still in the token stream with
//! their offsets: any that does not fall inside a node that can carry
//! attributes was literal text, and is put back, pipe included, in the
//! paragraph or table cell that encloses it.

use vstd::prelude::*;
use crate::node::{Attribute, Marker, Node, NodeKind};
use crate::span::ByteSpan;
use crate::text::str_eq;

verus! {

/// A token as the lexer reports it: its kind's name, its span and text.
#[derive(Debug, Clone, PartialEq, Eq)]
pub struct LexToken {
    pub kind: String,
    pub start: usize,
    pub end: usize,
    pub text: String,
}

/// A token as contracts speak of it.
pub struct TokenView {
    pub kind: Seq<char>,
    pub start: usize,
    pub end: usize,
    pub text: Seq<char>,
}

impl View for LexToken {
    type V = TokenView;

    open spec fn view(&self) -> TokenView {
        TokenView { kind: self.kind@, start: self.start, end: self.end, text: self.text@ }
    }
}

/// A node as contracts speak of it: its texts as characters and its
/// children as views.
pub struct NodeView {
    pub kind: NodeKind,
    pub marker: Option<Seq<char>>,
    pub attributes: Seq<(Seq<char>, Seq<char>)>,
    pub span: Option<ByteSpan>,
    pub anchor_cst: Option<usize>,
    pub children: Seq<NodeView>,
    pub text: Option<Seq<char>>,
    pub raw: Option<ByteSpan>,
}

/// The view of a node.
pub open spec fn node_view(n: Node) -> NodeView
    decreases n,
{
    NodeView {
        kind: n.kind,
        marker: match n.marker {
            Some(m) => Some(m.0@),
            None => None,
        },
        attributes: n.attributes@.map_values(|a: Attribute| (a.key@, a.value@)),
        span: n.span,
        anchor_cst: n.anchor_cst,
        children: views_of(n.children@),
        text: match n.text {
            Some(t) => Some(t@),
            None => None,
        },
        raw: n.raw,
    }
}

/// The views of a list of nodes.
pub open spec fn views_of(ns: Seq<Node>) -> Seq<NodeView>
    decreases ns,
{
    if ns.len() == 0 {
        Seq::empty()
    } else {
        views_of(ns.drop_last()).push(node_view(ns.last()))
    }
}

/// Node kinds that may legitimately carry attributes.
pub open spec fn consumes(kind: NodeKind) -> bool {
    kind == NodeKind::Char || kind == NodeKind::Figure || kind == NodeKind::Milestone
        || kind == NodeKind::Reference || kind == NodeKind::Note
}

/// Whether nodes of this kind may legitimately carry attributes: a `|`
/// inside one was consumed correctly, and anywhere else it was punctuation.
pub fn consumes_attributes(kind: NodeKind) -> (b: bool)
    ensures
        b == consumes(kind),
{
    match kind {
        NodeKind::Char => true,
        NodeKind::Figure => true,
        NodeKind::Milestone => true,
        NodeKind::Reference => true,
        NodeKind::Note => true,
        _ => false,
    }
}

/// Node kinds that hold content a restored token may be put into.
pub open spec fn holds_text(kind: NodeKind) -> bool {
    kind == NodeKind::Para || kind == NodeKind::TableCell
}

/// The spans of the nodes in a tree that may carry attributes.
pub open spec fn consuming_in(v: NodeView) -> Seq<ByteSpan>
    decreases v,
{
    (match v.span {
        Some(s) => if consumes(v.kind) { seq![s] } else { Seq::empty() },
        None => Seq::empty(),
    }) + consuming_all(v.children)
}

/// The same, over a list of trees.
pub open spec fn consuming_all(vs: Seq<NodeView>) -> Seq<ByteSpan>
    decreases vs,
{
    if vs.len() == 0 {
        Seq::empty()
    } else {
        consuming_all(vs.drop_last()) + consuming_in(vs.last())
    }
}

/// Whether `inner` lies within `outer`.
pub open spec fn within(inner: ByteSpan, outer: ByteSpan) -> bool {
    outer.start <= inner.start && inner.end <= outer.end
}

/// The attribute tokens, as spans, that no attribute-carrying node
/// encloses: text the tree dropped.
pub open spec fn candidates(toks: Seq<TokenView>, consuming: Seq<ByteSpan>) -> Seq<ByteSpan>
    decreases toks.len(),
{
    if toks.len() == 0 {
        Seq::empty()
    } else {
        let rest = candidates(toks.drop_last(), consuming);
        let t = toks.last();
        let s = ByteSpan { start: t.start, end: t.end };
        if t.kind == "attributes"@ && !(exists|k: int| 0 <= k < consuming.len() && within(s, #[trigger] consuming[k])) {
            rest.push(s)
        } else {
            rest
        }
    }
}

/// The text of the first token with exactly this span, if any.
pub open spec fn token_text(toks: Seq<TokenView>, s: ByteSpan, i: int) -> Option<Seq<char>>
    decreases toks.len() - i,
{
    if i < 0 || i >= toks.len() {
        None
    } else if toks[i].start == s.start && toks[i].end == s.end {
        Some(toks[i].text)
    } else {
        token_text(toks, s, i + 1)
    }
}

/// Where a restored token goes among the children: before the first child
/// that starts at or after its end, or last.
pub open spec fn slot(kids: Seq<NodeView>, end: usize, i: int) -> int
    decreases kids.len() - i,
{
    if i < 0 || i >= kids.len() {
        kids.len() as int
    } else if kids[i].span matches Some(s) && s.start >= end {
        i
    } else {
        slot(kids, end, i + 1)
    }
}

/// A text leaf.
pub open spec fn text_leaf(t: Seq<char>) -> NodeView {
    NodeView {
        kind: NodeKind::Text,
        marker: None,
        attributes: Seq::empty(),
        span: None,
        anchor_cst: None,
        children: Seq::empty(),
        text: Some(t),
        raw: None,
    }
}

/// Whether some child that holds text encloses `s`: a deeper node has
/// claimed it.
pub open spec fn claimed(kids: Seq<NodeView>, s: ByteSpan) -> bool {
    exists|k: int| 0 <= k < kids.len() && holds_text(kids[k].kind)
        && (#[trigger] kids[k].span matches Some(c) && within(s, c))
}

/// The children of a node spanning `span`, with candidates from `i` on put
/// back, in candidate order.
pub open spec fn put_back(kids: Seq<NodeView>, span: ByteSpan, cands: Seq<ByteSpan>, toks: Seq<TokenView>, i: int) -> Seq<NodeView>
    decreases cands.len() - i,
{
    if i < 0 || i >= cands.len() {
        kids
    } else {
        let c = cands[i];
        if !within(c, span) || claimed(kids, c) {
            put_back(kids, span, cands, toks, i + 1)
        } else {
            match token_text(toks, c, 0) {
                None => put_back(kids, span, cands, toks, i + 1),
                Some(t) => put_back(kids.insert(slot(kids, c.end, 0), text_leaf(t)), span, cands, toks, i + 1),
            }
        }
    }
}

/// A tree with the dropped text put back, deepest nodes first.
pub open spec fn repaired(v: NodeView, cands: Seq<ByteSpan>, toks: Seq<TokenView>) -> NodeView
    decreases v,
{
    let kids = repaired_all(v.children, cands, toks);
    match v.span {
        Some(span) => if holds_text(v.kind) {
            NodeView { children: put_back(kids, span, cands, toks, 0), ..v }
        } else {
            NodeView { children: kids, ..v }
        },
        None => NodeView { children: kids, ..v },
    }
}

/// The same, over a list of trees.
pub open spec fn repaired_all(vs: Seq<NodeView>, cands: Seq<ByteSpan>, toks: Seq<TokenView>) -> Seq<NodeView>
    decreases vs,
{
    if vs.len() == 0 {
        Seq::empty()
    } else {
        repaired_all(vs.drop_last(), cands, toks).push(repaired(vs.last(), cands, toks))
    }
}

/// The document's trees with every dropped attribute token put back.
pub open spec fn restored(content: Seq<NodeView>, toks: Seq<TokenView>) -> Seq<NodeView> {
    let cands = candidates(toks, consuming_all(content));
    if cands.len() == 0 {
        content
    } else {
        repaired_all(content, cands, toks)
    }
}


/// The views of a list of tokens.
pub open spec fn token_views(ts: Seq<LexToken>) -> Seq<TokenView> {
    ts.map_values(|t: LexToken| t@)
}

/// A list's views up to `i`, one more at a time.
pub(crate) proof fn lemma_views_take(ns: Seq<Node>, i: int)
    requires
        0 <= i < ns.len(),
    ensures
        views_of(ns.take(i + 1)) == views_of(ns.take(i)).push(node_view(ns[i])),
{
    let t = ns.take(i + 1);
    assert(t.drop_last() =~= ns.take(i));
    assert(t.last() == ns[i]);
}

pub(crate) fn copy_span(s: &Option<ByteSpan>) -> (r: Option<ByteSpan>)
    ensures
        r == *s,
{
    match s {
        Some(b) => Some(ByteSpan::new(b.start, b.end)),
        None => None,
    }
}

pub(crate) fn copy_attributes(a: &Vec<Attribute>) -> (r: Vec<Attribute>)
    ensures
        r@.map_values(|x: Attribute| (x.key@, x.value@)) == a@.map_values(|x: Attribute| (x.key@, x.value@)),
{
    let mut out: Vec<Attribute> = Vec::new();
    let mut i: usize = 0;
    while i < a.len()
        invariant
            i <= a@.len(),
            out@.len() == i,
            forall|j: int| 0 <= j < i ==> (#[trigger] out@[j]).key@ == a@[j].key@ && out@[j].value@ == a@[j].value@,
        decreases a.len() - i,
    {
        out.push(Attribute { key: a[i].key.clone(), value: a[i].value.clone() });
        i += 1;
    }
    assert(out@.map_values(|x: Attribute| (x.key@, x.value@)) =~= a@.map_values(|x: Attribute| (x.key@, x.value@)));
    out
}

/// Whether a child that holds text encloses `c`.
fn is_claimed(kids: &Vec<Node>, c: &ByteSpan) -> (b: bool)
    ensures
        b == claimed(views_of(kids@), *c),
{
    let ghost vs = views_of(kids@);
    proof {
        lemma_views_len(kids@);
    }
    let mut k: usize = 0;
    while k < kids.len()
        invariant
            k <= kids@.len(),
            vs == views_of(kids@),
            vs.len() == kids@.len(),
            forall|j: int| 0 <= j < k ==> !(holds_text(vs[j].kind) && (#[trigger] vs[j].span matches Some(s) && within(*c, s))),
        decreases kids.len() - k,
    {
        proof {
            lemma_view_at(kids@, k as int);
        }
        let kid = &kids[k];
        if kid.kind == NodeKind::Para || kid.kind == NodeKind::TableCell {
            match &kid.span {
                Some(s) => {
                    if s.start <= c.start && c.end <= s.end {
                        assert(vs[k as int].span == kid.span && vs[k as int].kind == kid.kind);
                        assert(holds_text(vs[k as int].kind) && (vs[k as int].span matches Some(sp) && within(*c, sp)));
                        return true;
                    }
                },
                None => {},
            }
        }
        k += 1;
    }
    false
}

/// A list's views have its length.
pub(crate) proof fn lemma_views_len(ns: Seq<Node>)
    ensures
        views_of(ns).len() == ns.len(),
    decreases ns.len(),
{
    if ns.len() > 0 {
        lemma_views_len(ns.drop_last());
    }
}

/// The view of element `k` of a list is the view of its `k`th node.
pub(crate) proof fn lemma_view_at(ns: Seq<Node>, k: int)
    requires
        0 <= k < ns.len(),
    ensures
        views_of(ns)[k] == node_view(ns[k]),
        views_of(ns).len() == ns.len(),
    decreases ns.len(),
{
    lemma_views_len(ns);
    if k < ns.len() - 1 {
        lemma_view_at(ns.drop_last(), k);
    }
}

/// The text of the first token with exactly this span.
fn find_token_text(toks: &[LexToken], c: &ByteSpan) -> (r: Option<String>)
    ensures
        match r {
            Some(t) => token_text(token_views(toks@), *c, 0) == Some(t@),
            None => token_text(token_views(toks@), *c, 0) is None,
        },
{
    let ghost tv = token_views(toks@);
    let mut i: usize = 0;
    while i < toks.len()
        invariant
            i <= toks@.len(),
            tv == token_views(toks@),
            token_text(tv, *c, 0) == token_text(tv, *c, i as int),
        decreases toks.len() - i,
    {
        if toks[i].start == c.start && toks[i].end == c.end {
            return Some(toks[i].text.clone());
        }
        i += 1;
    }
    None
}

/// Where a restored token goes among the children.
fn find_slot(kids: &Vec<Node>, end: usize) -> (r: usize)
    ensures
        r == slot(views_of(kids@), end, 0),
        r <= kids@.len(),
{
    let ghost vs = views_of(kids@);
    proof {
        lemma_views_len(kids@);
    }
    let mut i: usize = 0;
    while i < kids.len()
        invariant
            i <= kids@.len(),
            vs == views_of(kids@),
            vs.len() == kids@.len(),
            slot(vs, end, 0) == slot(vs, end, i as int),
        decreases kids.len() - i,
    {
        proof {
            lemma_view_at(kids@, i as int);
        }
        match &kids[i].span {
            Some(s) => {
                if s.start >= end {
                    return i;
                }
            },
            None => {},
        }
        i += 1;
    }
    i
}

/// Inserting into a list inserts its view.
proof fn lemma_views_insert(ns: Seq<Node>, k: int, n: Node)
    requires
        0 <= k <= ns.len(),
    ensures
        views_of(ns.insert(k, n)) == views_of(ns).insert(k, node_view(n)),
{
    let a = views_of(ns.insert(k, n));
    let b = views_of(ns).insert(k, node_view(n));
    lemma_views_len(ns.insert(k, n));
    lemma_views_len(ns);
    assert forall|j: int| 0 <= j < a.len() implies a[j] == b[j] by {
        lemma_view_at(ns.insert(k, n), j);
        if j < k {
            lemma_view_at(ns, j);
        } else if j > k {
            lemma_view_at(ns, j - 1);
        }
    }
    assert(a =~= b);
}

/// Puts the dropped tokens back among a text-holding node's children.
fn put_back_into(kids: &mut Vec<Node>, span: &ByteSpan, cands: &Vec<ByteSpan>, toks: &[LexToken])
    ensures
        views_of(final(kids)@) == put_back(views_of(old(kids)@), *span, cands@, token_views(toks@), 0),
{
    let ghost tv = token_views(toks@);
    let mut i: usize = 0;
    while i < cands.len()
        invariant
            i <= cands@.len(),
            tv == token_views(toks@),
            put_back(views_of(old(kids)@), *span, cands@, tv, 0) == put_back(views_of(kids@), *span, cands@, tv, i as int),
        decreases cands.len() - i,
    {
        let c = &cands[i];
        if c.start < span.start || c.end > span.end {
            i += 1;
            continue;
        }
        if is_claimed(kids, c) {
            i += 1;
            continue;
        }
        match find_token_text(toks, c) {
            None => {},
            Some(t) => {
                let at = find_slot(kids, c.end);
                let mut leaf = Node::new(NodeKind::Text);
                leaf.text = Some(t);
                proof {
                    assert(leaf.attributes@.map_values(|a: Attribute| (a.key@, a.value@)) =~= Seq::<(Seq<char>, Seq<char>)>::empty());
                    assert(views_of(leaf.children@) == Seq::<NodeView>::empty());
                    assert(node_view(leaf) == text_leaf(t@));
                    lemma_views_insert(kids@, at as int, leaf);
                }
                kids.insert(at, leaf);
            },
        }
        i += 1;
    }
}

/// A copy of `node` with the dropped text put back, deepest nodes first.
fn repair(node: &Node, cands: &Vec<ByteSpan>, toks: &[LexToken]) -> (r: Node)
    ensures
        node_view(r) == repaired(node_view(*node), cands@, token_views(toks@)),
    decreases node,
{
    let mut kids: Vec<Node> = Vec::new();
    let mut i: usize = 0;
    assert(node.children@.take(0) =~= Seq::<Node>::empty());
    while i < node.children.len()
        invariant
            i <= node.children@.len(),
            views_of(kids@) == repaired_all(views_of(node.children@.take(i as int)), cands@, token_views(toks@)),
        decreases node.children.len() - i,
    {
        let child = repair(&node.children[i], cands, toks);
        let ghost before = kids@;
        kids.push(child);
        proof {
            lemma_views_take(node.children@, i as int);
            assert(kids@.drop_last() =~= before);
            assert(views_of(kids@) == views_of(before).push(node_view(child)));
            let pre = views_of(node.children@.take(i as int));
            let nxt = pre.push(node_view(node.children@[i as int]));
            assert(nxt.drop_last() =~= pre);
            assert(repaired_all(nxt, cands@, token_views(toks@))
                == repaired_all(pre, cands@, token_views(toks@)).push(repaired(node_view(node.children@[i as int]), cands@, token_views(toks@))));
        }
        i += 1;
    }
    assert(node.children@.take(node.children@.len() as int) =~= node.children@);
    let span = copy_span(&node.span);
    match &node.span {
        Some(s) => {
            if node.kind == NodeKind::Para || node.kind == NodeKind::TableCell {
                put_back_into(&mut kids, s, cands, toks);
            }
        },
        None => {},
    }
    Node {
        kind: node.kind,
        marker: match &node.marker {
            Some(m) => Some(Marker(m.0.clone())),
            None => None,
        },
        attributes: copy_attributes(&node.attributes),
        span,
        anchor_cst: node.anchor_cst,
        children: kids,
        text: match &node.text {
            Some(t) => Some(t.clone()),
            None => None,
        },
        raw: copy_span(&node.raw),
    }
}

/// Appends the spans of the attribute-carrying nodes of a tree.
fn collect_consuming(node: &Node, out: &mut Vec<ByteSpan>)
    ensures
        final(out)@ == old(out)@ + consuming_in(node_view(*node)),
    decreases node,
{
    let ghost start = out@;
    match &node.span {
        Some(s) => {
            if consumes_attributes(node.kind) {
                out.push(ByteSpan::new(s.start, s.end));
            }
        },
        None => {},
    }
    let ghost head = out@;
    let mut i: usize = 0;
    assert(node.children@.take(0) =~= Seq::<Node>::empty());
    while i < node.children.len()
        invariant
            i <= node.children@.len(),
            out@ == head + consuming_all(views_of(node.children@.take(i as int))),
        decreases node.children.len() - i,
    {
        collect_consuming(&node.children[i], out);
        proof {
            lemma_views_take(node.children@, i as int);
            let pre = views_of(node.children@.take(i as int));
            let nxt = pre.push(node_view(node.children@[i as int]));
            assert(nxt.drop_last() =~= pre);
            assert(consuming_all(nxt) == consuming_all(pre) + consuming_in(node_view(node.children@[i as int])));
        }
        i += 1;
    }
    assert(node.children@.take(node.children@.len() as int) =~= node.children@);
    assert(out@ =~= start + consuming_in(node_view(*node)));
}

/// Puts back every attribute token the tree dropped: each one no
/// attribute-carrying node encloses becomes a text leaf in the paragraph or
/// table cell that most closely encloses it.
pub fn restore(content: &mut Vec<Node>, tokens: &[LexToken])
    ensures
        views_of(final(content)@) == restored(views_of(old(content)@), token_views(tokens@)),
{
    let ghost tv = token_views(tokens@);
    let mut consuming: Vec<ByteSpan> = Vec::new();
    let mut i: usize = 0;
    assert(content@.take(0) =~= Seq::<Node>::empty());
    while i < content.len()
        invariant
            i <= content@.len(),
            consuming@ == consuming_all(views_of(content@.take(i as int))),
        decreases content.len() - i,
    {
        collect_consuming(&content[i], &mut consuming);
        proof {
            lemma_views_take(content@, i as int);
            let pre = views_of(content@.take(i as int));
            let nxt = pre.push(node_view(content@[i as int]));
            assert(nxt.drop_last() =~= pre);
            assert(consuming_all(nxt) == consuming_all(pre) + consuming_in(node_view(content@[i as int])));
        }
        i += 1;
    }
    assert(content@.take(content@.len() as int) =~= content@);
    let mut cands: Vec<ByteSpan> = Vec::new();
    let mut t: usize = 0;
    assert(tv.take(0) =~= Seq::<TokenView>::empty());
    while t < tokens.len()
        invariant
            t <= tokens@.len(),
            tv == token_views(tokens@),
            cands@ == candidates(tv.take(t as int), consuming@),
        decreases tokens.len() - t,
    {
        let tok = &tokens[t];
        proof {
            let pre = tv.take(t + 1);
            assert(pre.drop_last() =~= tv.take(t as int));
            assert(pre.last() == tok@);
        }
        let s = ByteSpan::new(tok.start, tok.end);
        let mut k: usize = 0;
        let mut inside = false;
        while k < consuming.len()
            invariant
                k <= consuming@.len(),
                inside <==> exists|j: int| 0 <= j < k && within(s, #[trigger] consuming@[j]),
            decreases consuming.len() - k,
        {
            if consuming[k].start <= s.start && s.end <= consuming[k].end {
                inside = true;
            }
            k += 1;
        }
        if str_eq(tok.kind.as_str(), "attributes") && !inside {
            cands.push(s);
        }
        t += 1;
    }
    assert(tv.take(tokens@.len() as int) =~= tv);
    if cands.len() == 0 {
        return;
    }
    let mut repaired_content: Vec<Node> = Vec::new();
    let mut j: usize = 0;
    assert(content@.take(0) =~= Seq::<Node>::empty());
    while j < content.len()
        invariant
            j <= content@.len(),
            views_of(repaired_content@) == repaired_all(views_of(content@.take(j as int)), cands@, tv),
            tv == token_views(tokens@),
        decreases content.len() - j,
    {
        let r = repair(&content[j], &cands, tokens);
        let ghost before = repaired_content@;
        repaired_content.push(r);
        proof {
            lemma_views_take(content@, j as int);
            assert(repaired_content@.drop_last() =~= before);
            assert(views_of(repaired_content@) == views_of(before).push(node_view(r)));
            let pre = views_of(content@.take(j as int));
            let nxt = pre.push(node_view(content@[j as int]));
            assert(nxt.drop_last() =~= pre);
            assert(repaired_all(nxt, cands@, tv) == repaired_all(pre, cands@, tv).push(repaired(node_view(content@[j as int]), cands@, tv)));
        }
        j += 1;
    }
    assert(content@.take(content@.len() as int) =~= content@);
    *content = repaired_content;
}

} // verus!
