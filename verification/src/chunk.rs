//! What a chunk's parse is turned into.
//!
//! A chapter chunk is parsed on its own, inside the smallest context that
//! makes it well-formed: a synthetic `\id` line carrying the book code from
//! the header chunk. What comes back is in the coordinates of that text. The
//! functions here remove the synthetic context, move everything into the
//! document's coordinates, and keep only the parser's diagnostics a chunk
//! can vouch for.

use vstd::prelude::*;
use crate::diagnostic::{Diagnostic, DiagnosticCode, DiagnosticView};
use crate::backend::pipes::{
    copy_attributes, copy_span, lemma_view_at, lemma_views_len, lemma_views_take, node_view, views_of, NodeView,
};
use crate::fmt::{push_char, push_str};
use crate::node::{Marker, Node};
use crate::markers::{InfoView, MarkerTable};
use crate::node::preorder_all;
use crate::session::{duplicate_chapter_diags, parts_of, Session};
use crate::severity::{is_derived, marker_diagnostics, walk_diags, DiagnosticConfig};
use crate::verse::{diag_views, insert_sorted, sort_by_start};
use crate::span::ByteSpan;
use crate::text::{byte_offset, chars_of, is_white_space, is_whitespace, len_utf8, lemma_byte_offset_step, str_len};
use vstd::utf8::{decode_utf8, encode_utf8};
use vstd::string::StringSliceAdditionalSpecFns;
use crate::backend::diagnostics::converted;
use crate::backend::tree::content_of;
use crate::backend::upstream::{numbers_fit, usfm3_parse};
use crate::parsed::Document;
use crate::text::{at_boundary, str_get};

verus! {

/// Codes about the document as a whole. A chapter parsed alone reports a
/// missing `\id` correctly for the text it was given and uselessly for the
/// document; the sequencing codes need neighbours no chunk can see. Only the
/// header chunk reports them.
pub open spec fn document_scoped(code: DiagnosticCode) -> bool {
    ||| code == DiagnosticCode::MissingIdMarker
    ||| code == DiagnosticCode::DuplicateId
    ||| code == DiagnosticCode::TextBeforeId
    ||| code == DiagnosticCode::HeaderAfterBody
    ||| code == DiagnosticCode::BodyParagraphBeforeChapter
    ||| code == DiagnosticCode::MissingChapterMarker
    ||| code == DiagnosticCode::InvalidChapterSequence
    ||| code == DiagnosticCode::InvalidVerseSequence
    ||| code == DiagnosticCode::DuplicateChapter
}

/// Whether a code is about the whole document rather than one chunk.
pub fn is_document_scoped(code: DiagnosticCode) -> (b: bool)
    ensures
        b == document_scoped(code),
{
    match code {
        DiagnosticCode::MissingIdMarker => true,
        DiagnosticCode::DuplicateId => true,
        DiagnosticCode::TextBeforeId => true,
        DiagnosticCode::HeaderAfterBody => true,
        DiagnosticCode::BodyParagraphBeforeChapter => true,
        DiagnosticCode::MissingChapterMarker => true,
        DiagnosticCode::InvalidChapterSequence => true,
        DiagnosticCode::InvalidVerseSequence => true,
        DiagnosticCode::DuplicateChapter => true,
        _ => false,
    }
}

/// A span moved forward by `by`.
pub open spec fn shifted(s: ByteSpan, by: usize) -> ByteSpan {
    ByteSpan { start: (s.start + by) as usize, end: (s.end + by) as usize }
}

/// A span moved back by `by`, stopping at zero.
pub open spec fn unshifted(s: ByteSpan, by: usize) -> ByteSpan {
    ByteSpan {
        start: if s.start >= by { (s.start - by) as usize } else { 0 },
        end: if s.end >= by { (s.end - by) as usize } else { 0 },
    }
}

/// Moves a span forward by `by`.
pub fn shift_span(span: &ByteSpan, by: usize) -> (r: ByteSpan)
    requires
        span.end + by <= usize::MAX,
        span.start + by <= usize::MAX,
    ensures
        r == shifted(*span, by),
{
    ByteSpan::new(span.start + by, span.end + by)
}

/// Moves a span back by `by`, stopping at zero.
pub fn unshift_span(span: &ByteSpan, by: usize) -> (r: ByteSpan)
    ensures
        r == unshifted(*span, by),
{
    ByteSpan::new(span.start.saturating_sub(by), span.end.saturating_sub(by))
}

/// Whether a diagnostic the parser gave for a chunk parsed behind `offset`
/// bytes of synthetic context is kept: not one this engine derives itself,
/// not a document-wide one outside the header, and not one about the
/// synthetic context alone. A header that chapters follow does not report
/// the chapters missing: it is the whole document only when it is alone.
pub open spec fn kept_from_parse(d: DiagnosticView, offset: usize, is_header: bool, alone: bool) -> bool {
    &&& !(d.code == DiagnosticCode::UnknownMarker || d.code == DiagnosticCode::DeprecatedMarker)
    &&& is_header || !document_scoped(d.code)
    &&& alone || d.code != DiagnosticCode::MissingChapterMarker
    &&& d.span.end > offset || offset == 0
}

/// The parser's diagnostics for a chunk, kept as [`kept_from_parse`] says and
/// moved back into the chunk's own coordinates, in order.
pub open spec fn from_parse(ds: Seq<DiagnosticView>, offset: usize, is_header: bool, alone: bool) -> Seq<DiagnosticView>
    decreases ds.len(),
{
    if ds.len() == 0 {
        Seq::empty()
    } else {
        let rest = from_parse(ds.drop_last(), offset, is_header, alone);
        let d = ds.last();
        if kept_from_parse(d, offset, is_header, alone) {
            rest.push(DiagnosticView { span: unshifted(d.span, offset), ..d })
        } else {
            rest
        }
    }
}

/// Filters and moves the diagnostics the parser gave for a chunk parsed
/// behind `offset` bytes of synthetic context.
pub fn chunk_parse_diagnostics(diagnostics: Vec<Diagnostic>, offset: usize, is_header: bool, alone: bool) -> (r: Vec<Diagnostic>)
    ensures
        r@.map_values(|d: Diagnostic| d@) == from_parse(diagnostics@.map_values(|d: Diagnostic| d@), offset, is_header, alone),
{
    let ghost ds = diagnostics@.map_values(|d: Diagnostic| d@);
    let mut out: Vec<Diagnostic> = Vec::new();
    let mut i: usize = 0;
    assert(ds.take(0) =~= Seq::<DiagnosticView>::empty());
    while i < diagnostics.len()
        invariant
            i <= diagnostics@.len(),
            ds == diagnostics@.map_values(|d: Diagnostic| d@),
            out@.map_values(|d: Diagnostic| d@) == from_parse(ds.take(i as int), offset, is_header, alone),
        decreases diagnostics.len() - i,
    {
        let d = &diagnostics[i];
        proof {
            let t = ds.take(i + 1);
            assert(t.drop_last() =~= ds.take(i as int));
            assert(t.last() == d@);
        }
        if !is_derived(d.code) && (is_header || !is_document_scoped(d.code)) && (alone || d.code != DiagnosticCode::MissingChapterMarker) && (d.span.end > offset || offset == 0) {
            let moved = Diagnostic {
                code: d.code,
                severity: d.severity,
                span: unshift_span(&d.span, offset),
                message: d.message.clone(),
            };
            let ghost before = out@;
            out.push(moved);
            assert(out@.map_values(|d: Diagnostic| d@) =~= before.map_values(|d: Diagnostic| d@).push(moved@));
        }
        i += 1;
    }
    assert(ds.take(diagnostics@.len() as int) =~= ds);
    out
}

/// The synthetic context a chunk is parsed inside: for a chapter chunk of a
/// book whose code is known, an `\id` line naming it; otherwise nothing.
pub open spec fn context_for(is_header: bool, book: Option<Seq<char>>) -> Seq<char> {
    if !is_header && book is Some {
        "\\id "@ + book->0 + "\n"@
    } else {
        Seq::empty()
    }
}

/// Builds the synthetic context a chunk is parsed inside.
pub fn context_prefix(is_header: bool, book: Option<&str>) -> (r: String)
    ensures
        r@ == context_for(is_header, match book {
            Some(b) => Some(b@),
            None => None,
        }),
{
    let mut out = String::new();
    if !is_header {
        match book {
            Some(code) => {
                push_str(&mut out, "\\id ");
                push_str(&mut out, code);
                push_str(&mut out, "\n");
                proof {
                    reveal_strlit("\\id ");
                    reveal_strlit("\n");
                }
            },
            None => {},
        }
    }
    proof {
        reveal_strlit("");
    }
    out
}


/// A span, if there is one, moved forward by `by`.
pub open spec fn opt_shifted(o: Option<ByteSpan>, by: usize) -> Option<ByteSpan> {
    match o {
        Some(s) => Some(shifted(s, by)),
        None => None,
    }
}

/// A span, if there is one, moved back by `by`.
pub open spec fn opt_unshifted(o: Option<ByteSpan>, by: usize) -> Option<ByteSpan> {
    match o {
        Some(s) => Some(unshifted(s, by)),
        None => None,
    }
}

/// Whether a span, if there is one, can move forward by `by`.
pub open spec fn span_fits(o: Option<ByteSpan>, by: usize) -> bool {
    match o {
        Some(s) => s.start + by <= usize::MAX && s.end + by <= usize::MAX,
        None => true,
    }
}

/// Whether every span in a tree can move forward by `by`.
pub open spec fn fits(v: NodeView, by: usize) -> bool
    decreases v,
{
    span_fits(v.span, by) && span_fits(v.raw, by) && fits_all(v.children, by)
}

/// The same, over a list of trees.
pub open spec fn fits_all(vs: Seq<NodeView>, by: usize) -> bool
    decreases vs,
{
    if vs.len() == 0 {
        true
    } else {
        fits_all(vs.drop_last(), by) && fits(vs.last(), by)
    }
}

/// A tree with every span moved forward by `by`.
pub open spec fn translated(v: NodeView, by: usize) -> NodeView
    decreases v,
{
    NodeView {
        span: opt_shifted(v.span, by),
        raw: opt_shifted(v.raw, by),
        children: translated_all(v.children, by),
        ..v
    }
}

/// The same, over a list of trees.
pub open spec fn translated_all(vs: Seq<NodeView>, by: usize) -> Seq<NodeView>
    decreases vs,
{
    if vs.len() == 0 {
        Seq::empty()
    } else {
        translated_all(vs.drop_last(), by).push(translated(vs.last(), by))
    }
}

/// A tree with the synthetic context of `offset` bytes removed: `None` for
/// a node lying wholly within it, which describes text nobody wrote; every
/// other node moved back by `offset`, with its children stripped the same
/// way. With no context, the tree as it is.
pub open spec fn stripped(v: NodeView, offset: usize) -> Option<NodeView>
    decreases v,
{
    if offset == 0 {
        Some(v)
    } else if v.span matches Some(s) && s.end <= offset {
        None
    } else {
        Some(NodeView {
            span: opt_unshifted(v.span, offset),
            raw: opt_unshifted(v.raw, offset),
            children: stripped_all(v.children, offset),
            ..v
        })
    }
}

/// The same, over a list of trees, dropping the trees that go.
pub open spec fn stripped_all(vs: Seq<NodeView>, offset: usize) -> Seq<NodeView>
    decreases vs,
{
    if vs.len() == 0 {
        Seq::empty()
    } else {
        let rest = stripped_all(vs.drop_last(), offset);
        match stripped(vs.last(), offset) {
            Some(w) => rest.push(w),
            None => rest,
        }
    }
}

/// A tree's view, if there is a tree.
pub open spec fn opt_node_view(n: Option<Node>) -> Option<NodeView> {
    match n {
        Some(m) => Some(node_view(m)),
        None => None,
    }
}

/// Whether a span can move forward by `by`.
fn span_fits_by(o: &Option<ByteSpan>, by: usize) -> (b: bool)
    ensures
        b == span_fits(*o, by),
{
    match o {
        Some(s) => s.start <= usize::MAX - by && s.end <= usize::MAX - by,
        None => true,
    }
}

/// Whether every span in a tree can move forward by `by`.
pub fn node_fits(node: &Node, by: usize) -> (b: bool)
    ensures
        b == fits(node_view(*node), by),
    decreases node,
{
    if !span_fits_by(&node.span, by) || !span_fits_by(&node.raw, by) {
        return false;
    }
    let ghost vs = views_of(node.children@);
    let mut i: usize = 0;
    assert(views_of(node.children@.take(0)) =~= Seq::<NodeView>::empty());
    while i < node.children.len()
        invariant
            i <= node.children@.len(),
            vs == views_of(node.children@),
            fits_all(views_of(node.children@.take(i as int)), by),
        decreases node.children.len() - i,
    {
        let ok = node_fits(&node.children[i], by);
        proof {
            lemma_views_take(node.children@, i as int);
            let pre = views_of(node.children@.take(i as int));
            let nxt = pre.push(node_view(node.children@[i as int]));
            assert(nxt.drop_last() =~= pre);
        }
        if !ok {
            proof {
                lemma_view_at(node.children@, i as int);
                if fits_all(vs, by) {
                    lemma_fits_at(vs, by, i as int);
                }
            }
            return false;
        }
        i += 1;
    }
    assert(node.children@.take(node.children@.len() as int) =~= node.children@);
    true
}

/// Whether every span in a list of trees can move forward by `by`.
pub fn nodes_fit(ns: &[Node], by: usize) -> (b: bool)
    ensures
        b == fits_all(views_of(ns@), by),
        b ==> trees_fit(ns@, by),
{
    let mut i: usize = 0;
    assert(views_of(ns@.take(0)) =~= Seq::<NodeView>::empty());
    while i < ns.len()
        invariant
            i <= ns@.len(),
            fits_all(views_of(ns@.take(i as int)), by),
            forall|k: int| 0 <= k < i ==> fits(node_view(#[trigger] ns@[k]), by),
        decreases ns.len() - i,
    {
        let ok = node_fits(&ns[i], by);
        proof {
            lemma_views_take(ns@, i as int);
            let pre = views_of(ns@.take(i as int));
            let nxt = pre.push(node_view(ns@[i as int]));
            assert(nxt.drop_last() =~= pre);
        }
        if !ok {
            proof {
                lemma_view_at(ns@, i as int);
                if fits_all(views_of(ns@), by) {
                    lemma_fits_at(views_of(ns@), by, i as int);
                }
            }
            return false;
        }
        i += 1;
    }
    assert(ns@.take(ns@.len() as int) =~= ns@);
    true
}

/// Whether every diagnostic's span can move forward by `by`.
pub fn diagnostics_fit(ds: &[Diagnostic], by: usize) -> (b: bool)
    ensures
        b == diags_fit(diag_views(ds@), by),
{
    let mut i: usize = 0;
    while i < ds.len()
        invariant
            i <= ds@.len(),
            forall|k: int| 0 <= k < i ==> #[trigger] diag_views(ds@)[k].span.start + by <= usize::MAX
                && diag_views(ds@)[k].span.end + by <= usize::MAX,
        decreases ds.len() - i,
    {
        if ds[i].span.start > usize::MAX - by || ds[i].span.end > usize::MAX - by {
            assert(diag_views(ds@)[i as int] == ds@[i as int]@);
            assert(!(diag_views(ds@)[i as int].span.start + by <= usize::MAX
                && diag_views(ds@)[i as int].span.end + by <= usize::MAX));
            return false;
        }
        assert(diag_views(ds@)[i as int] == ds@[i as int]@);
        i += 1;
    }
    true
}

/// The views of two lists put together are their views put together.
pub(crate) proof fn lemma_views_concat_pub(a: Seq<Node>, b: Seq<Node>)
    ensures
        views_of(a + b) == views_of(a) + views_of(b),
{
    lemma_views_concat(a, b);
}

proof fn lemma_views_concat(a: Seq<Node>, b: Seq<Node>)
    ensures
        views_of(a + b) == views_of(a) + views_of(b),
    decreases b.len(),
{
    if b.len() == 0 {
        assert(a + b =~= a);
        assert(views_of(a) + views_of(b) =~= views_of(a));
    } else {
        lemma_views_concat(a, b.drop_last());
        assert((a + b).drop_last() =~= a + b.drop_last());
        assert((a + b).last() == b.last());
        assert(views_of(a) + views_of(b) =~= (views_of(a) + views_of(b.drop_last())).push(node_view(b.last())));
    }
}

/// A tree whose spans all fit has children whose spans all fit.
proof fn lemma_fits_at(vs: Seq<NodeView>, by: usize, k: int)
    requires
        fits_all(vs, by),
        0 <= k < vs.len(),
    ensures
        fits(vs[k], by),
    decreases vs.len(),
{
    if k < vs.len() - 1 {
        lemma_fits_at(vs.drop_last(), by, k);
    }
}

pub(crate) fn copy_marker(m: &Option<Marker>) -> (r: Option<Marker>)
    ensures
        match r {
            Some(a) => m matches Some(b) && a.0@ == b.0@,
            None => m is None,
        },
{
    match m {
        Some(b) => Some(Marker(b.0.clone())),
        None => None,
    }
}

pub(crate) fn copy_text(t: &Option<String>) -> (r: Option<String>)
    ensures
        match r {
            Some(a) => t matches Some(b) && a@ == b@,
            None => t is None,
        },
{
    match t {
        Some(b) => Some(b.clone()),
        None => None,
    }
}

/// A copy of a tree.
pub(crate) fn copy_node(node: &Node) -> (r: Node)
    ensures
        node_view(r) == node_view(*node),
    decreases node,
{
    let mut kids: Vec<Node> = Vec::new();
    let mut i: usize = 0;
    assert(node.children@.take(0) =~= Seq::<Node>::empty());
    while i < node.children.len()
        invariant
            i <= node.children@.len(),
            views_of(kids@) == views_of(node.children@.take(i as int)),
        decreases node.children.len() - i,
    {
        let child = copy_node(&node.children[i]);
        let ghost before = kids@;
        kids.push(child);
        proof {
            lemma_views_take(node.children@, i as int);
            assert(kids@.drop_last() =~= before);
            assert(views_of(kids@) == views_of(before).push(node_view(child)));
        }
        i += 1;
    }
    assert(node.children@.take(node.children@.len() as int) =~= node.children@);
    Node {
        kind: node.kind,
        marker: copy_marker(&node.marker),
        attributes: copy_attributes(&node.attributes),
        span: copy_span(&node.span),
        anchor_cst: node.anchor_cst,
        children: kids,
        text: copy_text(&node.text),
        raw: copy_span(&node.raw),
    }
}

fn shift_opt(o: &Option<ByteSpan>, by: usize) -> (r: Option<ByteSpan>)
    requires
        span_fits(*o, by),
    ensures
        r == opt_shifted(*o, by),
{
    match o {
        Some(s) => Some(shift_span(s, by)),
        None => None,
    }
}

fn unshift_opt(o: &Option<ByteSpan>, by: usize) -> (r: Option<ByteSpan>)
    ensures
        r == opt_unshifted(*o, by),
{
    match o {
        Some(s) => Some(unshift_span(s, by)),
        None => None,
    }
}

/// A copy of a tree in coordinates `by` bytes further on.
pub fn translate(node: &Node, by: usize) -> (r: Node)
    requires
        fits(node_view(*node), by),
    ensures
        node_view(r) == translated(node_view(*node), by),
    decreases node,
{
    let ghost vs = views_of(node.children@);
    let mut kids: Vec<Node> = Vec::new();
    let mut i: usize = 0;
    assert(node.children@.take(0) =~= Seq::<Node>::empty());
    while i < node.children.len()
        invariant
            i <= node.children@.len(),
            vs == views_of(node.children@),
            fits_all(vs, by),
            views_of(kids@) == translated_all(views_of(node.children@.take(i as int)), by),
        decreases node.children.len() - i,
    {
        proof {
            lemma_view_at(node.children@, i as int);
            lemma_fits_at(vs, by, i as int);
        }
        let child = translate(&node.children[i], by);
        let ghost before = kids@;
        kids.push(child);
        proof {
            lemma_views_take(node.children@, i as int);
            assert(kids@.drop_last() =~= before);
            assert(views_of(kids@) == views_of(before).push(node_view(child)));
            let pre = views_of(node.children@.take(i as int));
            let nxt = pre.push(node_view(node.children@[i as int]));
            assert(nxt.drop_last() =~= pre);
            assert(translated_all(nxt, by) == translated_all(pre, by).push(translated(node_view(node.children@[i as int]), by)));
        }
        i += 1;
    }
    assert(node.children@.take(node.children@.len() as int) =~= node.children@);
    Node {
        kind: node.kind,
        marker: copy_marker(&node.marker),
        attributes: copy_attributes(&node.attributes),
        span: shift_opt(&node.span, by),
        anchor_cst: node.anchor_cst,
        children: kids,
        text: copy_text(&node.text),
        raw: shift_opt(&node.raw, by),
    }
}

/// Removes the synthetic context a chapter chunk was parsed inside: a node
/// wholly within it is dropped with its children, and everything else moves
/// back by its length.
pub fn strip_prefix(node: &Node, offset: usize) -> (r: Option<Node>)
    ensures
        opt_node_view(r) == stripped(node_view(*node), offset),
    decreases node,
{
    if offset == 0 {
        return Some(copy_node(node));
    }
    match &node.span {
        Some(s) => {
            if s.end <= offset {
                return None;
            }
        },
        None => {},
    }
    let mut kids: Vec<Node> = Vec::new();
    let mut i: usize = 0;
    assert(node.children@.take(0) =~= Seq::<Node>::empty());
    while i < node.children.len()
        invariant
            i <= node.children@.len(),
            offset > 0,
            views_of(kids@) == stripped_all(views_of(node.children@.take(i as int)), offset),
        decreases node.children.len() - i,
    {
        let child = strip_prefix(&node.children[i], offset);
        proof {
            lemma_views_take(node.children@, i as int);
            let pre = views_of(node.children@.take(i as int));
            let nxt = pre.push(node_view(node.children@[i as int]));
            assert(nxt.drop_last() =~= pre);
        }
        match child {
            Some(c) => {
                let ghost before = kids@;
                kids.push(c);
                proof {
                    assert(kids@.drop_last() =~= before);
                    assert(views_of(kids@) == views_of(before).push(node_view(c)));
                }
            },
            None => {},
        }
        i += 1;
    }
    assert(node.children@.take(node.children@.len() as int) =~= node.children@);
    Some(Node {
        kind: node.kind,
        marker: copy_marker(&node.marker),
        attributes: copy_attributes(&node.attributes),
        span: unshift_opt(&node.span, offset),
        anchor_cst: node.anchor_cst,
        children: kids,
        text: copy_text(&node.text),
        raw: unshift_opt(&node.raw, offset),
    })
}


/// Whether the characters from `p` spell `\id`.
pub open spec fn spells_id(cs: Seq<char>, p: int) -> bool {
    0 <= p && p + 3 <= cs.len() && cs[p] == '\\' && cs[p + 1] == 'i' && cs[p + 2] == 'd'
}

/// The first line starting at or after character `p`, and before byte
/// `end`, that begins with `\id`; `at_start` says whether `p` begins a line.
pub open spec fn id_line(cs: Seq<char>, end: int, p: int, at_start: bool) -> Option<int>
    decreases cs.len() - p,
{
    if p < 0 || p >= cs.len() || byte_offset(cs, p) >= end {
        None
    } else if at_start && spells_id(cs, p) {
        Some(p)
    } else {
        id_line(cs, end, p + 1, cs[p] == '\n')
    }
}

/// Past the white space from `k`, staying on the line.
pub open spec fn past_blanks(cs: Seq<char>, k: int) -> int
    decreases cs.len() - k,
{
    if 0 <= k < cs.len() && cs[k] != '\n' && is_white_space(cs[k]) {
        past_blanks(cs, k + 1)
    } else {
        k
    }
}

/// Where the word starting at `k` ends: at the next white space, or the end.
pub open spec fn word_end(cs: Seq<char>, k: int) -> int
    decreases cs.len() - k,
{
    if 0 <= k < cs.len() && !is_white_space(cs[k]) {
        word_end(cs, k + 1)
    } else {
        k
    }
}

/// The book code of a header: on the first of its lines (those starting
/// before byte `end`) that begins with `\id`, the word after the space or
/// tab that follows; nothing when that line has no such word.
pub open spec fn book_code_in(cs: Seq<char>, end: int) -> Option<Seq<char>> {
    match id_line(cs, end, 0, true) {
        None => None,
        Some(p) => {
            let q = p + 3;
            if q < cs.len() && (cs[q] == ' ' || cs[q] == '\t') {
                let t = past_blanks(cs, q);
                if t < cs.len() && cs[t] != '\n' {
                    Some(cs.subrange(t, word_end(cs, t)))
                } else {
                    None
                }
            } else {
                None
            }
        }
    }
}

proof fn lemma_past_blanks(cs: Seq<char>, k: int)
    requires
        0 <= k <= cs.len(),
    ensures
        k <= past_blanks(cs, k) <= cs.len(),
    decreases cs.len() - k,
{
    if k < cs.len() && cs[k] != '\n' && is_white_space(cs[k]) {
        lemma_past_blanks(cs, k + 1);
    }
}

pub(crate) proof fn lemma_word_end(cs: Seq<char>, k: int)
    requires
        0 <= k <= cs.len(),
    ensures
        k <= word_end(cs, k) <= cs.len(),
    decreases cs.len() - k,
{
    if k < cs.len() && !is_white_space(cs[k]) {
        lemma_word_end(cs, k + 1);
    }
}

/// The book code named on the `\id` line of a header that ends at byte
/// `end` of `source`.
pub fn header_book_code(source: &str, end: usize) -> (r: Option<String>)
    ensures
        match r {
            Some(code) => book_code_in(source@, end as int) == Some(code@),
            None => book_code_in(source@, end as int) is None,
        },
{
    let cs = chars_of(source);
    let _total = str_len(source);
    let mut p: usize = 0;
    let mut off: usize = 0;
    let mut at_start = true;
    assert(cs@.take(0) =~= Seq::<char>::empty());
    let mut found: Option<usize> = None;
    while found.is_none() && p < cs.len() && off < end
        invariant
            p <= cs@.len(),
            off == byte_offset(cs@, p as int),
            encode_utf8(cs@).len() <= usize::MAX,
            found matches Some(k) ==> id_line(cs@, end as int, 0, true) == Some(k as int) && k + 3 <= cs@.len(),
            found is None ==> id_line(cs@, end as int, 0, true) == id_line(cs@, end as int, p as int, at_start),
        decreases cs.len() - p + if found is None { 1int } else { 0int },
    {
        if at_start && cs.len() >= 3 && p <= cs.len() - 3 && cs[p] == '\\' && cs[p + 1] == 'i' && cs[p + 2] == 'd' {
            found = Some(p);
        } else {
            proof {
                lemma_byte_offset_step(cs@, p as int);
            }
            at_start = cs[p] == '\n';
            off = off + len_utf8(cs[p]);
            p += 1;
        }
    }
    let p = match found {
        Some(p) => {
            let n = cs.len();
            assert(p + 3 <= n);
            p
        },
        None => {
            return None;
        },
    };
    let q = p + 3;
    if !(q < cs.len() && (cs[q] == ' ' || cs[q] == '\t')) {
        return None;
    }
    let mut t = q;
    while t < cs.len() && cs[t] != '\n' && is_whitespace(cs[t])
        invariant
            q <= t <= cs@.len(),
            past_blanks(cs@, q as int) == past_blanks(cs@, t as int),
        decreases cs.len() - t,
    {
        t += 1;
    }
    if !(t < cs.len() && cs[t] != '\n') {
        return None;
    }
    let mut w = t;
    let mut code = String::new();
    while w < cs.len() && !is_whitespace(cs[w])
        invariant
            t <= w <= cs@.len(),
            word_end(cs@, t as int) == word_end(cs@, w as int),
            code@ == cs@.subrange(t as int, w as int),
        decreases cs.len() - w,
    {
        push_char(&mut code, cs[w]);
        proof {
            assert(code@ =~= cs@.subrange(t as int, w + 1));
        }
        w += 1;
    }
    Some(code)
}


/// Whether every span of a run of diagnostics can move forward by `by`.
pub open spec fn diags_fit(ds: Seq<DiagnosticView>, by: usize) -> bool {
    forall|i: int| 0 <= i < ds.len() ==> #[trigger] ds[i].span.start + by <= usize::MAX && ds[i].span.end + by <= usize::MAX
}

/// Diagnostics moved forward by `by`.
pub open spec fn shifted_diags(ds: Seq<DiagnosticView>, by: usize) -> Seq<DiagnosticView> {
    ds.map_values(|d: DiagnosticView| DiagnosticView { span: shifted(d.span, by), ..d })
}

/// The diagnostics whose code is not suppressed, in order.
pub open spec fn unsuppressed(ds: Seq<DiagnosticView>, suppressed: Seq<DiagnosticCode>) -> Seq<DiagnosticView>
    decreases ds.len(),
{
    if ds.len() == 0 {
        Seq::empty()
    } else {
        let rest = unsuppressed(ds.drop_last(), suppressed);
        if suppressed.contains(ds.last().code) {
            rest
        } else {
            rest.push(ds.last())
        }
    }
}

/// Every tree of a list fits a move forward by `by`.
pub open spec fn trees_fit(ns: Seq<Node>, by: usize) -> bool {
    forall|i: int| 0 <= i < ns.len() ==> fits(node_view(#[trigger] ns[i]), by)
}

/// Every run of a list, one after another.
pub open spec fn flattened(runs: Seq<Seq<DiagnosticView>>) -> Seq<DiagnosticView>
    decreases runs.len(),
{
    if runs.len() == 0 {
        Seq::empty()
    } else {
        flattened(runs.drop_last()) + runs.last()
    }
}

/// Appends the diagnostics of `ds` whose code is not suppressed, moved
/// forward by `by`.
fn push_unsuppressed(out: &mut Vec<Diagnostic>, ds: &[Diagnostic], by: usize, config: &DiagnosticConfig)
    requires
        diags_fit(diag_views(ds@), by),
    ensures
        diag_views(final(out)@) == diag_views(old(out)@) + unsuppressed(shifted_diags(diag_views(ds@), by), config.suppressed@),
{
    let ghost head = diag_views(out@);
    let ghost all = shifted_diags(diag_views(ds@), by);
    let mut i: usize = 0;
    assert(all.take(0) =~= Seq::<DiagnosticView>::empty());
    while i < ds.len()
        invariant
            i <= ds@.len(),
            all == shifted_diags(diag_views(ds@), by),
            diags_fit(diag_views(ds@), by),
            diag_views(out@) == head + unsuppressed(all.take(i as int), config.suppressed@),
        decreases ds.len() - i,
    {
        let d = &ds[i];
        proof {
            let t = all.take(i + 1);
            assert(t.drop_last() =~= all.take(i as int));
            assert(diag_views(ds@)[i as int] == d@);
            assert(diag_views(ds@)[i as int].span.start + by <= usize::MAX);
        }
        if !config.is_suppressed(d.code) {
            let moved = Diagnostic {
                code: d.code,
                severity: d.severity,
                span: shift_span(&d.span, by),
                message: d.message.clone(),
            };
            let ghost before = out@;
            out.push(moved);
            assert(diag_views(out@) =~= diag_views(before).push(moved@));
        }
        i += 1;
    }
    assert(all.take(ds@.len() as int) =~= all);
}

impl Session {
    /// The book code from the header chunk's `\id` line, which chapter
    /// chunks need and cannot see; nothing when there is no header chunk.
    pub fn book_code(&self) -> (r: Option<String>)
        requires
            self.wf(),
        ensures
            match r {
                Some(code) => self.table()[0]@.0 is None && book_code_in(self.text(), self.table()[0]@.2) == Some(code@),
                None => self.table()[0]@.0 is Some || book_code_in(self.text(), self.table()[0]@.2) is None,
            },
    {
        let chunks = self.chunks();
        proof {
            reveal(crate::session::vp_shape);
        }
        assert(parts_of(self.table(), 0)[0] == (self.table()[0]@.0, self.table()[0]@.1 - 0, self.table()[0]@.2 - 0));
        let header = &chunks[0];
        if header.number().is_some() {
            return None;
        }
        header_book_code(self.source(), header.range().end)
    }

    /// What a chunk's parse comes to, given the trees and diagnostics the
    /// parser gave for the chunk's text behind its synthetic context (see
    /// [`context_prefix`]): the trees with the context stripped, and the
    /// diagnostics the chunk can vouch for, both in the chunk's coordinates.
    pub fn parsed_chunk(&self, index: usize, tree: &[Node], diagnostics: Vec<Diagnostic>) -> (r: (Vec<Node>, Vec<Diagnostic>))
        requires
            self.wf(),
            index < self.table().len(),
        ensures
            ({
                let is_header = self.table()[index as int]@.0 is None;
                let book = if self.table()[0]@.0 is None { book_code_in(self.text(), self.table()[0]@.2) } else { None };
                let offset = encode_utf8(context_for(is_header, book)).len();
                &&& offset <= usize::MAX
                &&& views_of(r.0@) == stripped_all(views_of(tree@), offset as usize)
                &&& r.1@.map_values(|d: Diagnostic| d@)
                    == from_parse(diagnostics@.map_values(|d: Diagnostic| d@), offset as usize, is_header, self.table().len() == 1)
            }),
    {
        let is_header = self.chunks()[index].number().is_none();
        let book = self.book_code();
        let prefix = match &book {
            Some(code) => context_prefix(is_header, Some(code.as_str())),
            None => context_prefix(is_header, None),
        };
        let offset = str_len(prefix.as_str());
        let mut content: Vec<Node> = Vec::new();
        let mut i: usize = 0;
        assert(tree@.take(0) =~= Seq::<Node>::empty());
        while i < tree.len()
            invariant
                i <= tree@.len(),
                views_of(content@) == stripped_all(views_of(tree@.take(i as int)), offset),
            decreases tree.len() - i,
        {
            let kept = strip_prefix(&tree[i], offset);
            proof {
                lemma_views_take(tree@, i as int);
                let pre = views_of(tree@.take(i as int));
                let nxt = pre.push(node_view(tree@[i as int]));
                assert(nxt.drop_last() =~= pre);
            }
            match kept {
                Some(n) => {
                    let ghost before = content@;
                    content.push(n);
                    proof {
                        assert(content@.drop_last() =~= before);
                        assert(views_of(content@) == views_of(before).push(node_view(n)));
                    }
                },
                None => {},
            }
            i += 1;
        }
        assert(tree@.take(tree@.len() as int) =~= tree@);
        (content, chunk_parse_diagnostics(diagnostics, offset, is_header, self.chunks().len() == 1))
    }

    /// The text of chunk `index`: its bytes decoded, or nothing where they
    /// do not lie on character boundaries.
    pub open spec fn chunk_text(&self, index: int) -> Seq<char> {
        let s = self.table()[index]@.1;
        let e = self.table()[index]@.2;
        let b = self.bytes();
        if 0 <= s <= e <= b.len() && at_boundary(b, s) && at_boundary(b, e) {
            decode_utf8(b.subrange(s, e))
        } else {
            Seq::empty()
        }
    }

    /// The synthetic context chunk `index` is parsed behind.
    pub open spec fn chunk_context(&self, index: int) -> Seq<char> {
        let is_header = self.table()[index]@.0 is None;
        let book = if self.table()[0]@.0 is None { book_code_in(self.text(), self.table()[0]@.2) } else { None };
        context_for(is_header, book)
    }

    /// What the parser makes of chunk `index` behind its context, taken
    /// through [`Session::parsed_chunk`]: the trees stripped of the context
    /// and the diagnostics the chunk can vouch for, in the chunk's
    /// coordinates. The parser's checks are left out, as in
    /// [`Document::parse`], where the text holds a number too large for them.
    pub fn chunk_parse(&self, index: usize) -> (r: (Vec<Node>, Vec<Diagnostic>))
        requires
            self.wf(),
            index < self.table().len(),
        ensures
            ({
                let is_header = self.table()[index as int]@.0 is None;
                let text = self.chunk_context(index as int) + self.chunk_text(index as int);
                let offset = encode_utf8(self.chunk_context(index as int)).len();
                let found = if numbers_fit(encode_utf8(text)) {
                    sort_by_start(converted(usfm3_parse(text).1))
                } else {
                    Seq::empty()
                };
                &&& offset <= usize::MAX
                &&& views_of(r.0@) == stripped_all(content_of(usfm3_parse(text).0, encode_utf8(text)), offset as usize)
                &&& diag_views(r.1@) == from_parse(found, offset as usize, is_header, self.table().len() == 1)
            }),
    {
        let range = self.chunks()[index].range();
        let is_header = self.chunks()[index].number().is_none();
        let book = self.book_code();
        let mut text = match &book {
            Some(code) => context_prefix(is_header, Some(code.as_str())),
            None => context_prefix(is_header, None),
        };
        let ghost p = text@;
        assert(p == self.chunk_context(index as int));
        match str_get(self.source(), range.start, range.end) {
            Some(piece) => {
                proof {
                    vstd::utf8::encode_utf8_decode_utf8(piece@);
                }
                push_str(&mut text, piece);
            },
            None => {
                assert(p + Seq::<char>::empty() =~= p);
            },
        }
        assert(text@ == self.chunk_context(index as int) + self.chunk_text(index as int));
        let doc = Document::parse(text.as_str());
        let (tree, diagnostics) = doc.into_parts();
        self.parsed_chunk(index, tree.as_slice(), diagnostics)
    }

    /// The text chunk `index` is parsed as: its context, then its own text.
    pub open spec fn parse_input(&self, index: int) -> Seq<char> {
        self.chunk_context(index) + self.chunk_text(index)
    }

    /// How many bytes of the parse input are context.
    pub open spec fn context_len(&self, index: int) -> usize {
        encode_utf8(self.chunk_context(index)).len() as usize
    }

    /// Where chunk `index` starts in the document.
    pub open spec fn chunk_start(&self, index: int) -> usize {
        self.table()[index]@.1 as usize
    }

    /// The trees of chunk `index`'s parse, in the chunk's coordinates.
    pub open spec fn chunk_tree(&self, index: int) -> Seq<NodeView> {
        let text = self.parse_input(index);
        stripped_all(content_of(usfm3_parse(text).0, encode_utf8(text)), self.context_len(index))
    }

    /// The parser's diagnostics chunk `index` vouches for, in the chunk's
    /// coordinates.
    pub open spec fn chunk_found(&self, index: int) -> Seq<DiagnosticView> {
        let text = self.parse_input(index);
        let found = if numbers_fit(encode_utf8(text)) {
            sort_by_start(converted(usfm3_parse(text).1))
        } else {
            Seq::empty()
        };
        from_parse(found, self.context_len(index), self.table()[index]@.0 is None, self.table().len() == 1)
    }

    /// Whether chunk `index`'s parse can be placed in the document: every
    /// span in it still fits a `usize` there.
    pub open spec fn chunk_placeable(&self, index: int) -> bool {
        &&& fits_all(self.chunk_tree(index), self.chunk_start(index))
        &&& diags_fit(self.chunk_found(index), self.chunk_start(index))
    }

    /// The document's trees from the chunks before `k`, in order.
    pub open spec fn content_upto(&self, k: int) -> Seq<NodeView>
        decreases k,
    {
        if k <= 0 {
            Seq::empty()
        } else {
            self.content_upto(k - 1) + translated_all(self.chunk_tree(k - 1), self.chunk_start(k - 1))
        }
    }

    /// Whether `ds` is what chunk `index` is judged to have wrong: the
    /// parser's diagnostics it vouches for and those its markers draw, in
    /// document coordinates, leaving out suppressed codes.
    pub open spec fn judged(&self, index: int, table: Seq<InfoView>, ds: Seq<DiagnosticView>) -> bool {
        &&& self.chunk_placeable(index)
        &&& exists|content: Seq<Node>| #![trigger preorder_all(content)]
            views_of(content) == translated_all(self.chunk_tree(index), self.chunk_start(index))
            && ds == unsuppressed(
                shifted_diags(self.chunk_found(index), self.chunk_start(index))
                    + walk_diags(table, preorder_all(content), self.bytes(), self.settings()),
                self.settings().suppressed@,
            )
    }

    /// Chunk `index`'s nodes in document coordinates, from its own parse;
    /// `None` where a span would not fit a `usize` there.
    pub fn chunk_content(&self, index: usize) -> (r: Option<Vec<Node>>)
        requires
            self.wf(),
            index < self.table().len(),
        ensures
            match r {
                Some(v) => fits_all(self.chunk_tree(index as int), self.chunk_start(index as int))
                    && views_of(v@) == translated_all(self.chunk_tree(index as int), self.chunk_start(index as int)),
                None => !fits_all(self.chunk_tree(index as int), self.chunk_start(index as int)),
            },
    {
        let (tree, _) = self.chunk_parse(index);
        let start = self.chunks()[index].range().start;
        if nodes_fit(tree.as_slice(), start) {
            Some(self.placed_content(index, tree.as_slice()))
        } else {
            None
        }
    }

    /// What chunk `index` has wrong, from its own parse and the markers it
    /// uses; `None` where a span would not fit a `usize` in the document.
    pub fn chunk_diagnostics(&self, index: usize, table: &MarkerTable) -> (r: Option<Vec<Diagnostic>>)
        requires
            self.wf(),
            index < self.table().len(),
        ensures
            match r {
                Some(v) => self.judged(index as int, table@, diag_views(v@)),
                None => !self.chunk_placeable(index as int),
            },
    {
        let (tree, found) = self.chunk_parse(index);
        let start = self.chunks()[index].range().start;
        if !nodes_fit(tree.as_slice(), start) || !diagnostics_fit(found.as_slice(), start) {
            return None;
        }
        let content = self.placed_content(index, tree.as_slice());
        let r = self.judged_diagnostics(index, found.as_slice(), content.as_slice(), table);
        assert(preorder_all(content@) == preorder_all(content@));
        Some(r)
    }

    /// The whole document's nodes, each chunk from its own parse; `None`
    /// where some chunk's spans would not fit a `usize` in the document.
    pub fn content(&self) -> (r: Option<Vec<Node>>)
        requires
            self.wf(),
        ensures
            match r {
                Some(v) => views_of(v@) == self.content_upto(self.table().len() as int),
                None => exists|k: int| 0 <= k < self.table().len()
                    && !fits_all(#[trigger] self.chunk_tree(k), self.chunk_start(k)),
            },
    {
        let mut out: Vec<Node> = Vec::new();
        let mut c: usize = 0;
        let n = self.chunks().len();
        assert(views_of(out@) =~= Seq::<NodeView>::empty());
        while c < n
            invariant
                self.wf(),
                n == self.table().len(),
                c <= n,
                views_of(out@) == self.content_upto(c as int),
            decreases n - c,
        {
            let mut part = match self.chunk_content(c) {
                Some(v) => v,
                None => {
                    return None;
                },
            };
            let ghost before = out@;
            let ghost added = part@;
            out.append(&mut part);
            proof {
                lemma_views_concat(before, added);
            }
            c += 1;
        }
        Some(out)
    }

    /// Everything the document has wrong, each chunk judged from its own
    /// parse, with what no single chunk can see, in source order; `None`
    /// where some chunk's spans would not fit a `usize` in the document.
    pub fn diagnostics(&self, table: &MarkerTable) -> (r: Option<Vec<Diagnostic>>)
        requires
            self.wf(),
        ensures
            match r {
                Some(v) => exists|per: Seq<Seq<DiagnosticView>>| #![trigger flattened(per)]
                    per.len() == self.table().len()
                    && (forall|k: int| 0 <= k < per.len() ==> self.judged(k, table@, #[trigger] per[k]))
                    && diag_views(v@) == sort_by_start(
                        flattened(per)
                            + unsuppressed(duplicate_chapter_diags(parts_of(self.table(), 0), self.bytes()), self.settings().suppressed@),
                    ),
                None => exists|k: int| 0 <= k < self.table().len() && !#[trigger] self.chunk_placeable(k),
            },
    {
        let n = self.chunks().len();
        let mut per_chunk: Vec<Vec<Diagnostic>> = Vec::new();
        let mut c: usize = 0;
        while c < n
            invariant
                self.wf(),
                n == self.table().len(),
                c <= n,
                per_chunk@.len() == c,
                forall|k: int| 0 <= k < c ==> self.judged(k, table@, #[trigger] diag_views(per_chunk@[k]@)),
            decreases n - c,
        {
            match self.chunk_diagnostics(c, table) {
                Some(v) => {
                    per_chunk.push(v);
                },
                None => {
                    return None;
                },
            }
            c += 1;
        }
        let r = self.gathered_diagnostics(per_chunk.as_slice());
        proof {
            let per = per_chunk@.map_values(|v: Vec<Diagnostic>| diag_views(v@));
            assert forall|k: int| 0 <= k < per.len() implies self.judged(k, table@, #[trigger] per[k]) by {
                assert(per[k] == diag_views(per_chunk@[k]@));
            }
        }
        Some(r)
    }

    /// One chunk's nodes in document coordinates, given the nodes its parse
    /// gave once stripped of the synthetic context.
    pub fn placed_content(&self, index: usize, parsed: &[Node]) -> (r: Vec<Node>)
        requires
            index < self.table().len(),
            trees_fit(parsed@, self.table()[index as int]@.1 as usize),
        ensures
            views_of(r@) == translated_all(views_of(parsed@), self.table()[index as int]@.1 as usize),
    {
        let offset = self.chunks()[index].range().start;
        let mut out: Vec<Node> = Vec::new();
        let mut i: usize = 0;
        assert(parsed@.take(0) =~= Seq::<Node>::empty());
        while i < parsed.len()
            invariant
                i <= parsed@.len(),
                offset == self.table()[index as int]@.1,
                trees_fit(parsed@, offset),
                views_of(out@) == translated_all(views_of(parsed@.take(i as int)), offset),
            decreases parsed.len() - i,
        {
            let n = translate(&parsed[i], offset);
            let ghost before = out@;
            out.push(n);
            proof {
                lemma_views_take(parsed@, i as int);
                assert(out@.drop_last() =~= before);
                assert(views_of(out@) == views_of(before).push(node_view(n)));
                let pre = views_of(parsed@.take(i as int));
                let nxt = pre.push(node_view(parsed@[i as int]));
                assert(nxt.drop_last() =~= pre);
            }
            i += 1;
        }
        assert(parsed@.take(parsed@.len() as int) =~= parsed@);
        out
    }

    /// One chunk's diagnostics in document coordinates: the parser's, as
    /// kept for the chunk, then what the marker table says of its nodes
    /// (given in document coordinates), leaving out suppressed codes. Marker
    /// conditions are derived here rather than kept with the chunk, because
    /// they depend on the configuration.
    pub fn judged_diagnostics(&self, index: usize, parsed: &[Diagnostic], content: &[Node], table: &MarkerTable) -> (r: Vec<Diagnostic>)
        requires
            index < self.table().len(),
            diags_fit(diag_views(parsed@), self.table()[index as int]@.1 as usize),
        ensures
            diag_views(r@) == unsuppressed(
                shifted_diags(diag_views(parsed@), self.table()[index as int]@.1 as usize)
                    + walk_diags(table@, preorder_all(content@), self.bytes(), self.settings()),
                self.settings().suppressed@,
            ),
    {
        let offset = self.chunks()[index].range().start;
        let config = self.config();
        let mut out: Vec<Diagnostic> = Vec::new();
        push_unsuppressed(&mut out, parsed, offset, config);
        let derived = marker_diagnostics(content, self.source(), config, table);
        push_unsuppressed(&mut out, derived.as_slice(), 0, config);
        proof {
            let a = shifted_diags(diag_views(parsed@), offset);
            let b = walk_diags(table@, preorder_all(content@), self.bytes(), self.settings());
            assert(shifted_diags(diag_views(derived@), 0) =~= diag_views(derived@));
            lemma_unsuppressed_concat(a, b, config.suppressed@);
        }
        out
    }

    /// Every diagnostic of the document in source order, given each chunk's
    /// from [`Session::judged_diagnostics`]: those, then the ones no single
    /// chunk can see, leaving out suppressed codes, sorted stably by where
    /// they start.
    pub fn gathered_diagnostics(&self, per_chunk: &[Vec<Diagnostic>]) -> (r: Vec<Diagnostic>)
        requires
            self.wf(),
        ensures
            diag_views(r@) == sort_by_start(
                flattened(per_chunk@.map_values(|v: Vec<Diagnostic>| diag_views(v@)))
                    + unsuppressed(duplicate_chapter_diags(parts_of(self.table(), 0), self.bytes()), self.settings().suppressed@),
            ),
    {
        let ghost runs = per_chunk@.map_values(|v: Vec<Diagnostic>| diag_views(v@));
        let mut all: Vec<Diagnostic> = Vec::new();
        let mut c: usize = 0;
        assert(runs.take(0) =~= Seq::<Seq<DiagnosticView>>::empty());
        while c < per_chunk.len()
            invariant
                c <= per_chunk@.len(),
                runs == per_chunk@.map_values(|v: Vec<Diagnostic>| diag_views(v@)),
                diag_views(all@) == sort_by_start(flattened(runs.take(c as int))),
            decreases per_chunk.len() - c,
        {
            let run = &per_chunk[c];
            let ghost base = flattened(runs.take(c as int));
            let mut k: usize = 0;
            while k < run.len()
                invariant
                    k <= run@.len(),
                    diag_views(all@) == sort_by_start(base + diag_views(run@).take(k as int)),
                decreases run.len() - k,
            {
                let d = &run[k];
                let copy = Diagnostic { code: d.code, severity: d.severity, span: ByteSpan::new(d.span.start, d.span.end), message: d.message.clone() };
                proof {
                    let t = base + diag_views(run@).take(k + 1);
                    assert(t.drop_last() =~= base + diag_views(run@).take(k as int));
                    assert(t.last() == copy@);
                }
                insert_sorted(&mut all, copy);
                k += 1;
            }
            proof {
                let t = runs.take(c + 1);
                assert(t.drop_last() =~= runs.take(c as int));
                assert(t.last() == diag_views(run@));
                assert(diag_views(run@).take(run@.len() as int) =~= diag_views(run@));
            }
            c += 1;
        }
        assert(runs.take(per_chunk@.len() as int) =~= runs);
        let cross = self.cross_chunk_diagnostics();
        let config = self.config();
        let ghost base = flattened(runs);
        let ghost extra = unsuppressed(diag_views(cross@), config.suppressed@);
        let mut k: usize = 0;
        let ghost mut added: Seq<DiagnosticView> = Seq::empty();
        assert(base + added =~= base);
        while k < cross.len()
            invariant
                k <= cross@.len(),
                added == unsuppressed(diag_views(cross@).take(k as int), config.suppressed@),
                diag_views(all@) == sort_by_start(base + added),
            decreases cross.len() - k,
        {
            let d = &cross[k];
            proof {
                let t = diag_views(cross@).take(k + 1);
                assert(t.drop_last() =~= diag_views(cross@).take(k as int));
                assert(t.last() == d@);
            }
            if !config.is_suppressed(d.code) {
                let copy = Diagnostic { code: d.code, severity: d.severity, span: ByteSpan::new(d.span.start, d.span.end), message: d.message.clone() };
                proof {
                    assert((base + added.push(copy@)).drop_last() =~= base + added);
                    added = added.push(copy@);
                }
                insert_sorted(&mut all, copy);
            }
            k += 1;
        }
        assert(diag_views(cross@).take(cross@.len() as int) =~= diag_views(cross@));
        all
    }
}

/// Leaving out suppressed codes commutes with putting two runs together.
proof fn lemma_unsuppressed_concat(a: Seq<DiagnosticView>, b: Seq<DiagnosticView>, s: Seq<DiagnosticCode>)
    ensures
        unsuppressed(a + b, s) == unsuppressed(a, s) + unsuppressed(b, s),
    decreases b.len(),
{
    if b.len() == 0 {
        assert(a + b =~= a);
        assert(unsuppressed(a, s) + unsuppressed(b, s) =~= unsuppressed(a, s));
    } else {
        lemma_unsuppressed_concat(a, b.drop_last(), s);
        assert((a + b).drop_last() =~= a + b.drop_last());
        assert((a + b).last() == b.last());
        if !s.contains(b.last().code) {
            assert(unsuppressed(a, s) + unsuppressed(b.drop_last(), s).push(b.last())
                =~= (unsuppressed(a, s) + unsuppressed(b.drop_last(), s)).push(b.last()));
        }
    }
}

} // verus!
