//! Lowering the parser's tape into the document tree.
//!
//! The tape is flat: an opening marker points at its close, and everything
//! between them is its content. Lowering walks it: an opening marker becomes
//! a node whose children are what lies before its close, and whose attributes
//! are the attribute runs directly inside it; chapters, verses, text and
//! uninterpretable bytes become leaves; closes and the root give nothing.
//! Every node records the index of the record it came from.

use vstd::prelude::*;
use vstd::string::StringSliceAdditionalSpecFns;
use vstd::utf8::decode_utf8;
use crate::backend::pipes::{lemma_view_at, lemma_views_take, node_view, views_of, NodeView};
use crate::backend::upstream::{marker_category, usfm3_category, Record};
use crate::fmt::{decimal, decimal_string, push_char};
use crate::node::{Attribute, Marker, Node, NodeKind};
use crate::session::clamp_usize;
use crate::span::ByteSpan;
use crate::text::{chars_of, is_white_space, is_whitespace, str_eq, str_get, string_from, trim_bounds, trim_chars};
use crate::chunk::{copy_marker, copy_node, copy_text, lemma_word_end, word_end};
use crate::backend::pipes::{copy_attributes, copy_span};

verus! {

/// Where a record's bytes end, kept within a `usize`.
pub open spec fn record_end(r: Record) -> usize {
    clamp_usize(r.start + r.len)
}

/// A record's bytes as a span.
pub open spec fn record_span(r: Record) -> ByteSpan {
    ByteSpan { start: r.start as usize, end: record_end(r) }
}

/// The text a record covers: its bytes decoded, when they are a slice of the
/// source on character boundaries; nothing otherwise.
pub open spec fn record_text(src: Seq<u8>, r: Record) -> Seq<char> {
    let s = r.start as int;
    let e = record_end(r) as int;
    if s <= e <= src.len() && crate::text::at_boundary(src, s) && crate::text::at_boundary(src, e) {
        decode_utf8(src.subrange(s, e))
    } else {
        Seq::empty()
    }
}

/// Whether a character ends a marker's name as written.
pub open spec fn ends_name(c: char) -> bool {
    is_white_space(c) || c == '*' || c == '|' || c == '\\'
}

/// Where a name starting at `k` ends.
pub open spec fn name_end(t: Seq<char>, k: int) -> int
    decreases t.len() - k,
{
    if 0 <= k < t.len() && !ends_name(t[k]) {
        name_end(t, k + 1)
    } else {
        k
    }
}

/// A marker token without its backslash and nesting `+`.
pub open spec fn bare(t: Seq<char>) -> Seq<char> {
    let a = if t.len() > 0 && t[0] == '\\' { t.drop_first() } else { t };
    if a.len() > 0 && a[0] == '+' { a.drop_first() } else { a }
}

/// The marker's name as written in its token: `q1`, `tcr1`, `nd`.
pub open spec fn written_name(t: Seq<char>) -> Seq<char> {
    let a = bare(t);
    a.take(name_end(a, 0))
}

/// Where the white space starting at `k` ends.
pub open spec fn spaces_end(t: Seq<char>, k: int) -> int
    decreases t.len() - k,
{
    if 0 <= k < t.len() && is_white_space(t[k]) {
        spaces_end(t, k + 1)
    } else {
        k
    }
}

pub(crate) proof fn lemma_spaces_end(t: Seq<char>, k: int)
    requires
        0 <= k <= t.len(),
    ensures
        k <= spaces_end(t, k) <= t.len(),
    decreases t.len() - k,
{
    if k < t.len() && is_white_space(t[k]) {
        lemma_spaces_end(t, k + 1);
    }
}

/// The first word at or after `k`, words being separated by white space.
pub open spec fn word_from(t: Seq<char>, k: int) -> Seq<char> {
    let a = spaces_end(t, k);
    t.subrange(a, word_end(t, a))
}

/// The second word of a text.
pub open spec fn second_word(t: Seq<char>) -> Seq<char> {
    word_from(t, word_end(t, spaces_end(t, 0)))
}

/// A chapter's or verse's number as written: glued to its marker (`\v10`),
/// or the word after it (`\v 1-2`, `\v 1a`).
pub open spec fn number_label(t: Seq<char>) -> Seq<char> {
    let n = written_name(t);
    if n.len() > 1 { n.drop_first() } else { second_word(t) }
}

/// A chapter's or verse's marker: its name without a glued number.
pub open spec fn number_marker(t: Seq<char>) -> Seq<char> {
    let n = written_name(t);
    if n.len() > 1 { n.take(1) } else { n }
}

/// Whether a name is a table cell's: `tc`, `th`, `tcr`, `thr` and their
/// numbered forms.
pub open spec fn cell_name(n: Seq<char>) -> bool {
    n.len() >= 2 && n[0] == 't' && (n[1] == 'c' || n[1] == 'h')
}

/// The kind of node an opening marker becomes, from its name as written and
/// the category the marker table gives it.
pub open spec fn kind_for(name: Seq<char>, category: Option<u8>) -> NodeKind {
    match category {
        Some(0u8) => if name == "id"@ { NodeKind::Book } else { NodeKind::Para },
        Some(1u8) => NodeKind::Chapter,
        Some(2u8) => NodeKind::Verse,
        Some(3u8) => if name == "tr"@ {
            NodeKind::TableRow
        } else if cell_name(name) {
            NodeKind::TableCell
        } else if name == "esb"@ {
            NodeKind::Sidebar
        } else if name == "periph"@ {
            NodeKind::Periph
        } else {
            NodeKind::Para
        },
        Some(4u8) => if name == "fig"@ {
            NodeKind::Figure
        } else if name == "ref"@ {
            NodeKind::Reference
        } else if cell_name(name) {
            NodeKind::TableCell
        } else {
            NodeKind::Char
        },
        Some(5u8) => NodeKind::Note,
        Some(6u8) => NodeKind::Milestone,
        _ => NodeKind::Unknown,
    }
}

/// Whether record `i` opens a marker whose close lies inside `(i, end)`.
pub open spec fn opens(rs: Seq<Record>, i: int, end: int) -> bool {
    rs[i].kind == 1 && i < rs[i].link < end
}

/// The name a marker's unnamed attribute is given: `lemma` for the word
/// markers, `gloss` for ruby, and so on; `default` where the marker has none.
pub open spec fn default_key(name: Seq<char>) -> Seq<char> {
    if name == "w"@ || name == "wa"@ || name == "wg"@ || name == "wh"@ {
        "lemma"@
    } else if name == "rb"@ {
        "gloss"@
    } else if name == "xt"@ {
        "href"@
    } else if name == "ref"@ {
        "loc"@
    } else if name == "jmp"@ {
        "link-href"@
    } else if name == "periph"@ {
        "id"@
    } else if name.len() >= 2 && name[0] == 'q' && name[1] == 't' {
        "who"@
    } else {
        "default"@
    }
}

/// Where the first `=` at or after `k` is, or the end.
pub open spec fn next_eq(b: Seq<char>, k: int) -> int
    decreases b.len() - k,
{
    if 0 <= k < b.len() && b[k] != '=' {
        next_eq(b, k + 1)
    } else {
        k
    }
}

/// Where a quoted value that starts at `k` closes: the first `"` not
/// escaped by a backslash, or the end.
pub open spec fn close_quote(b: Seq<char>, k: int) -> int
    decreases b.len() - k,
{
    if k < 0 || k >= b.len() {
        k
    } else if b[k] == '\\' && k + 1 < b.len() && b[k + 1] == '"' {
        close_quote(b, k + 2)
    } else if b[k] == '"' {
        k
    } else {
        close_quote(b, k + 1)
    }
}

/// Where the white space that ends at `k` begins.
pub open spec fn spaces_back(b: Seq<char>, k: int) -> int
    decreases k,
{
    if 0 < k <= b.len() && is_white_space(b[k - 1]) {
        spaces_back(b, k - 1)
    } else {
        k
    }
}

/// Where the word that ends at `k` begins.
pub open spec fn word_back(b: Seq<char>, k: int) -> int
    decreases k,
{
    if 0 < k <= b.len() && !is_white_space(b[k - 1]) {
        word_back(b, k - 1)
    } else {
        k
    }
}

/// The last word of `b[lo..hi)`.
pub open spec fn last_word(b: Seq<char>, lo: int, hi: int) -> Seq<char> {
    let e = spaces_back(b, hi);
    let e2 = if e < lo { lo } else { e };
    let s = word_back(b, e2);
    let s2 = if s < lo { lo } else { s };
    b.subrange(s2, e2)
}

/// The name an attribute is kept under.
pub open spec fn attr_key(owner: Seq<char>, key: Seq<char>) -> Seq<char> {
    if owner == "fig"@ && key == "src"@ { "file"@ } else { key }
}

/// The `key=value` pairs of an attribute list of a marker named `owner`
/// from `i` on. A key is the last word before its `=` (a figure's `src`
/// is kept as `file`); a value is quoted (up to the closing `"`) or runs to
/// the next white space. A pair without a key is dropped.
pub open spec fn pairs_from(b: Seq<char>, i: int, owner: Seq<char>) -> Seq<(Seq<char>, Seq<char>)>
    decreases b.len() - i,
{
    let j = spaces_end(b, i);
    if i < 0 || j < i || j >= b.len() {
        Seq::empty()
    } else {
        let eq = next_eq(b, j);
        if eq < j || eq >= b.len() {
            Seq::empty()
        } else {
            let key = last_word(b, j, eq);
            let v0 = spaces_end(b, eq + 1);
            let quoted = eq + 1 <= v0 < b.len() && b[v0] == '"';
            let vend = if quoted { close_quote(b, v0 + 1) } else { word_end(b, v0) };
            let value = if quoted { b.subrange(v0 + 1, vend) } else { b.subrange(v0, vend) };
            let next = if quoted && vend < b.len() { vend + 1 } else { vend };
            let head: Seq<(Seq<char>, Seq<char>)> = if key.len() > 0 { seq![(attr_key(owner, key), value)] } else { Seq::empty() };
            if next <= i || next > b.len() {
                head
            } else {
                head + pairs_from(b, next, owner)
            }
        }
    }
}

/// The attributes one attribute run gives, from its text without the `|`:
/// nothing for an empty run, the whole run under the marker's unnamed
/// attribute when it has no `=`, else its pairs.
pub open spec fn run_attributes(raw: Seq<char>, owner: Seq<char>) -> Seq<(Seq<char>, Seq<char>)> {
    let b = trim_chars(raw);
    if b.len() == 0 {
        Seq::empty()
    } else if next_eq(b, 0) >= b.len() {
        seq![(default_key(owner), b)]
    } else {
        pairs_from(b, 0, owner)
    }
}

/// The attributes of the runs directly inside records `[i, end)` of a
/// marker named `owner`: those inside a nested marker belong to it.
pub open spec fn attributes_in(rs: Seq<Record>, src: Seq<u8>, i: int, end: int, owner: Seq<char>) -> Seq<(Seq<char>, Seq<char>)>
    decreases end - i,
{
    if i < 0 || i >= end || end > rs.len() {
        Seq::empty()
    } else if opens(rs, i, end) {
        attributes_in(rs, src, rs[i].link + 1, end, owner)
    } else if rs[i].kind == 6 {
        let t = record_text(src, rs[i]);
        let v = if t.len() > 0 && t[0] == '|' { t.drop_first() } else { t };
        run_attributes(v, owner) + attributes_in(rs, src, i + 1, end, owner)
    } else {
        attributes_in(rs, src, i + 1, end, owner)
    }
}

/// A node with nothing optional.
pub open spec fn bare_node(kind: NodeKind, anchor: int) -> NodeView {
    NodeView {
        kind,
        marker: None,
        attributes: Seq::empty(),
        span: None,
        anchor_cst: Some(anchor as usize),
        children: Seq::empty(),
        text: None,
        raw: None,
    }
}

/// What a record that does not open a marker with its close in range
/// becomes: a chapter or verse with its number, a text leaf, an unknown node
/// holding uninterpretable bytes, an opening marker with nothing inside it;
/// closes, attribute runs and the root become nothing.
pub open spec fn leaf(rs: Seq<Record>, src: Seq<u8>, i: int) -> Seq<NodeView> {
    let r = rs[i];
    let t = record_text(src, r);
    if r.kind == 3 || r.kind == 4 {
        seq![NodeView {
            marker: Some(number_marker(t)),
            attributes: seq![("number"@, number_label(t))],
            span: Some(record_span(r)),
            ..bare_node(if r.kind == 3 { NodeKind::Chapter } else { NodeKind::Verse }, i)
        }]
    } else if r.kind == 5 {
        seq![NodeView { text: Some(t), ..bare_node(NodeKind::Text, i) }]
    } else if r.kind == 8 {
        seq![NodeView { span: Some(record_span(r)), raw: Some(record_span(r)), ..bare_node(NodeKind::Unknown, i) }]
    } else if r.kind == 1 {
        seq![NodeView {
            marker: Some(written_name(t)),
            span: Some(record_span(r)),
            ..bare_node(kind_for(written_name(t), usfm3_category(r.marker)), i)
        }]
    } else {
        Seq::empty()
    }
}

/// The text of the first text leaf among `vs`, or nothing.
pub open spec fn first_text(vs: Seq<NodeView>) -> Seq<char>
    decreases vs.len(),
{
    if vs.len() == 0 {
        Seq::empty()
    } else if vs[0].kind == NodeKind::Text && vs[0].text is Some {
        vs[0].text->0
    } else {
        first_text(vs.drop_first())
    }
}

/// The attributes a node has from its content rather than from attribute
/// runs: a book's `code` and a note's `caller`, each the first word of its
/// first text.
pub open spec fn content_attributes(kind: NodeKind, kids: Seq<NodeView>) -> Seq<(Seq<char>, Seq<char>)> {
    if kind == NodeKind::Book {
        seq![("code"@, word_from(first_text(kids), 0))]
    } else if kind == NodeKind::Note {
        seq![("caller"@, word_from(first_text(kids), 0))] + category_of(kids)
    } else if kind == NodeKind::Sidebar {
        category_of(kids)
    } else {
        Seq::empty()
    }
}

/// The index of the first `\\cat` among `vs` from `k` on, if any.
pub open spec fn cat_from(vs: Seq<NodeView>, k: int) -> Option<int>
    decreases vs.len() - k,
{
    if k < 0 || k >= vs.len() {
        None
    } else if vs[k].marker == Some("cat"@) {
        Some(k)
    } else {
        cat_from(vs, k + 1)
    }
}

/// A note's or sidebar's `category`: the trimmed text of its first `\\cat`.
pub open spec fn category_of(vs: Seq<NodeView>) -> Seq<(Seq<char>, Seq<char>)> {
    match cat_from(vs, 0) {
        Some(k) => seq![("category"@, trim_chars(first_text(vs[k].children)))],
        None => Seq::empty(),
    }
}

/// The number a chapter or verse at record `i` takes from the text right
/// after it, when its own record holds none: the parser reads only ASCII
/// digits into the record, so `\\v ௩ text` leaves `௩` in the text.
pub open spec fn borrowed_number(rs: Seq<Record>, src: Seq<u8>, i: int, end: int) -> Option<Seq<char>> {
    if 0 <= i && i + 1 < end && end <= rs.len() && (rs[i].kind == 3 || rs[i].kind == 4)
        && number_label(record_text(src, rs[i])).len() == 0 && rs[i + 1].kind == 5 {
        let t = record_text(src, rs[i + 1]);
        let a = spaces_end(t, 0);
        let w = word_end(t, a);
        if w > a { Some(t.subrange(a, w)) } else { None }
    } else {
        None
    }
}

/// What a text record becomes once a chapter or verse before it has taken
/// its first word: the rest, if any.
pub open spec fn text_after_number(rs: Seq<Record>, src: Seq<u8>, i: int) -> Seq<NodeView> {
    let t = record_text(src, rs[i]);
    let w = word_end(t, spaces_end(t, 0));
    if w < t.len() {
        seq![NodeView { text: Some(t.subrange(w, t.len() as int)), ..bare_node(NodeKind::Text, i) }]
    } else {
        Seq::empty()
    }
}

/// A book's content once its code is taken out: the first text, with its
/// first word gone and trimmed, or dropped when nothing is left of it.
pub open spec fn book_content(vs: Seq<NodeView>) -> Seq<NodeView> {
    if vs.len() > 0 && vs[0].kind == NodeKind::Text && vs[0].text is Some {
        let t = vs[0].text->0;
        let rest = trim_chars(t.subrange(word_end(t, spaces_end(t, 0)), t.len() as int));
        if rest.len() == 0 {
            vs.drop_first()
        } else {
            vs.update(0, NodeView { text: Some(rest), ..vs[0] })
        }
    } else {
        vs
    }
}

/// The nodes records `[i, end)` lower to, in order.
pub open spec fn lowered(rs: Seq<Record>, src: Seq<u8>, i: int, end: int) -> Seq<NodeView>
    decreases end - i,
{
    if i < 0 || i >= end || end > rs.len() {
        Seq::empty()
    } else if opens(rs, i, end) {
        let r = rs[i];
        let c = r.link as int;
        let name = written_name(record_text(src, r));
        let kind = kind_for(name, usfm3_category(r.marker));
        seq![NodeView {
            marker: Some(name),
            attributes: content_attributes(kind, lowered(rs, src, i + 1, c)) + attributes_in(rs, src, i + 1, c, name),
            span: Some(ByteSpan { start: r.start as usize, end: record_end(rs[c]) }),
            children: if kind == NodeKind::Book { book_content(lowered(rs, src, i + 1, c)) } else { lowered(rs, src, i + 1, c) },
            ..bare_node(kind_for(name, usfm3_category(r.marker)), i)
        }] + lowered(rs, src, c + 1, end)
    } else if borrowed_number(rs, src, i, end) is Some {
        seq![NodeView { attributes: seq![("number"@, borrowed_number(rs, src, i, end)->0)], ..leaf(rs, src, i)[0] }]
            + text_after_number(rs, src, i + 1) + lowered(rs, src, i + 2, end)
    } else {
        leaf(rs, src, i) + lowered(rs, src, i + 1, end)
    }
}

/// Whether a node is a chapter's or verse's alternate number (`\\ca`, `\\va`).
pub open spec fn is_alt_number(v: NodeView) -> bool {
    v.marker == Some("ca"@) || v.marker == Some("va"@)
}

/// Whether a node is a chapter's or verse's published number (`\\cp`, `\\vp`).
pub open spec fn is_pub_number(v: NodeView) -> bool {
    v.marker == Some("cp"@) || v.marker == Some("vp"@)
}

/// An attribute if there is a value for it.
pub open spec fn optional_attribute(key: Seq<char>, value: Option<Seq<char>>) -> Seq<(Seq<char>, Seq<char>)> {
    match value {
        Some(v) => seq![(key, v)],
        None => Seq::empty(),
    }
}

/// Whether a node is text that is all white space.
pub open spec fn is_blank(v: NodeView) -> bool {
    v.kind == NodeKind::Text && v.text is Some && trim_chars(v.text->0).len() == 0
}

/// Where the blank text nodes from `k` on end.
pub open spec fn past_blank(vs: Seq<NodeView>, k: int) -> int
    decreases vs.len() - k,
{
    if 0 <= k < vs.len() && is_blank(vs[k]) {
        past_blank(vs, k + 1)
    } else {
        k
    }
}

/// The siblings `vs[k..]` with each chapter's and verse's alternate and
/// published numbers folded into it: a `\\ca`/`\\va` after it (past blank
/// text) becomes its `altnumber`, then a `\\cp`/`\\vp` its `pubnumber`
/// (each the trimmed text of its first text leaf), and the folded nodes and
/// the blanks before them go. The same is done inside every other node.
pub open spec fn folded_from(vs: Seq<NodeView>, k: int) -> Seq<NodeView>
    decreases vs, vs.len() - k,
{
    if k < 0 || k >= vs.len() {
        Seq::empty()
    } else {
        let v = vs[k];
        if v.kind == NodeKind::Chapter || v.kind == NodeKind::Verse {
            let a = past_blank(vs, k + 1);
            let has_alt = a < vs.len() && is_alt_number(vs[a]);
            let j1 = if has_alt { a + 1 } else { k + 1 };
            let b = past_blank(vs, j1);
            let has_pub = b < vs.len() && is_pub_number(vs[b]);
            let j2 = if has_pub { b + 1 } else { j1 };
            let alt = if has_alt { Some(trim_chars(first_text(vs[a].children))) } else { None };
            let pubn = if has_pub { Some(trim_chars(first_text(vs[b].children))) } else { None };
            let head = seq![NodeView {
                attributes: v.attributes + optional_attribute("altnumber"@, alt) + optional_attribute("pubnumber"@, pubn),
                ..v
            }];
            if j2 <= k || j2 > vs.len() {
                head
            } else {
                head + folded_from(vs, j2)
            }
        } else {
            seq![NodeView { children: folded_from(v.children, 0), ..v }] + folded_from(vs, k + 1)
        }
    }
}

/// The value of the first attribute named `key`, or nothing.
pub open spec fn attr_value(attrs: Seq<(Seq<char>, Seq<char>)>, key: Seq<char>) -> Seq<char>
    decreases attrs.len(),
{
    if attrs.len() == 0 {
        Seq::empty()
    } else if attrs[0].0 == key {
        attrs[0].1
    } else {
        attr_value(attrs.drop_first(), key)
    }
}

/// The siblings `vs[k..]` with each chapter and verse given its `sid`, the
/// reference it starts: `BOOK C` for a chapter and `BOOK C:V` for a verse,
/// where the book is the `code` of the last book met before it in document
/// order and the chapter the number of the last chapter met, given as
/// `book` and `chapter` on entry. Returns the book and chapter in force
/// after the last sibling.
pub open spec fn sided_from(vs: Seq<NodeView>, k: int, book: Seq<char>, chapter: Seq<char>) -> (Seq<NodeView>, Seq<char>, Seq<char>)
    decreases vs, vs.len() - k,
{
    if k < 0 || k >= vs.len() {
        (Seq::empty(), book, chapter)
    } else {
        let v = vs[k];
        let (w, b1, c1) = if v.kind == NodeKind::Chapter {
            let n = attr_value(v.attributes, "number"@);
            (NodeView { attributes: v.attributes.push(("sid"@, book + " "@ + n)), ..v }, book, n)
        } else if v.kind == NodeKind::Verse {
            let n = attr_value(v.attributes, "number"@);
            (NodeView { attributes: v.attributes.push(("sid"@, book + " "@ + chapter + ":"@ + n)), ..v }, book, chapter)
        } else if v.kind == NodeKind::Book {
            (v, attr_value(v.attributes, "code"@), chapter)
        } else {
            let inner = sided_from(v.children, 0, book, chapter);
            (NodeView { children: inner.0, ..v }, inner.1, inner.2)
        };
        let rest = sided_from(vs, k + 1, b1, c1);
        (seq![w] + rest.0, rest.1, rest.2)
    }
}

/// The document's content: the records after the root, the tape's first
/// record, up to and including the last one it links to; nothing for a tape
/// without a root.
pub open spec fn content_of(rs: Seq<Record>, src: Seq<u8>) -> Seq<NodeView> {
    if rs.len() > 0 && rs[0].kind == 0 {
        let last = if rs[0].link < rs.len() { rs[0].link + 1 } else { rs.len() as int };
        sided_from(folded_from(lowered(rs, src, 1, last), 0), 0, Seq::empty(), Seq::empty()).0
    } else {
        Seq::empty()
    }
}

/// Where a record's bytes end.
fn end_of(r: &Record) -> (e: usize)
    ensures
        e == record_end(*r),
{
    (r.start as usize).saturating_add(r.len as usize)
}

/// The text a record covers.
fn text_of(source: &str, r: &Record) -> (t: String)
    ensures
        t@ == record_text(source.spec_bytes(), *r),
{
    let e = end_of(r);
    match str_get(source, r.start as usize, e) {
        Some(slice) => {
            proof {
                vstd::utf8::encode_utf8_decode_utf8(slice@);
            }
            slice.to_string()
        },
        None => String::new(),
    }
}

/// The name a marker token is written with.
fn name_of(token: &str) -> (n: String)
    ensures
        n@ == written_name(token@),
{
    let t = chars_of(token);
    let mut k: usize = 0;
    if k < t.len() && t[k] == '\\' {
        k += 1;
    }
    if k < t.len() && t[k] == '+' {
        k += 1;
    }
    let ghost a = bare(t@);
    assert(a =~= t@.skip(k as int));
    let start = k;
    let mut n = String::new();
    while k < t.len() && !(is_whitespace(t[k]) || t[k] == '*' || t[k] == '|' || t[k] == '\\')
        invariant
            start <= k <= t@.len(),
            a =~= t@.skip(start as int),
            name_end(a, 0) == name_end(a, k - start),
            n@ == a.take(k - start),
        decreases t.len() - k,
    {
        push_char(&mut n, t[k]);
        assert(a.take(k + 1 - start) =~= a.take(k - start).push(a[k - start]));
        k += 1;
    }
    n
}

/// The kind of node an opening marker becomes.
fn kind_of(name: &str, category: Option<u8>) -> (k: NodeKind)
    ensures
        k == kind_for(name@, category),
{
    proof {
        reveal_strlit("id");
        reveal_strlit("tr");
        reveal_strlit("esb");
        reveal_strlit("periph");
        reveal_strlit("fig");
        reveal_strlit("ref");
    }
    let t = chars_of(name);
    let cell = t.len() >= 2 && t[0] == 't' && (t[1] == 'c' || t[1] == 'h');
    match category {
        Some(0u8) => if crate::text::str_eq(name, "id") { NodeKind::Book } else { NodeKind::Para },
        Some(1u8) => NodeKind::Chapter,
        Some(2u8) => NodeKind::Verse,
        Some(3u8) => if crate::text::str_eq(name, "tr") {
            NodeKind::TableRow
        } else if cell {
            NodeKind::TableCell
        } else if crate::text::str_eq(name, "esb") {
            NodeKind::Sidebar
        } else if crate::text::str_eq(name, "periph") {
            NodeKind::Periph
        } else {
            NodeKind::Para
        },
        Some(4u8) => if crate::text::str_eq(name, "fig") {
            NodeKind::Figure
        } else if crate::text::str_eq(name, "ref") {
            NodeKind::Reference
        } else if cell {
            NodeKind::TableCell
        } else {
            NodeKind::Char
        },
        Some(5u8) => NodeKind::Note,
        Some(6u8) => NodeKind::Milestone,
        _ => NodeKind::Unknown,
    }
}


/// The views of a run of attributes.
pub open spec fn attribute_views(a: Seq<Attribute>) -> Seq<(Seq<char>, Seq<char>)> {
    a.map_values(|x: Attribute| (x.key@, x.value@))
}

proof fn lemma_next_eq(b: Seq<char>, k: int)
    requires
        0 <= k <= b.len(),
    ensures
        k <= next_eq(b, k) <= b.len(),
        next_eq(b, k) < b.len() ==> b[next_eq(b, k)] == '=',
    decreases b.len() - k,
{
    if k < b.len() && b[k] != '=' {
        lemma_next_eq(b, k + 1);
    }
}

proof fn lemma_close_quote(b: Seq<char>, k: int)
    requires
        0 <= k <= b.len(),
    ensures
        k <= close_quote(b, k) <= b.len(),
    decreases b.len() - k,
{
    if k < b.len() {
        if b[k] == '\\' && k + 1 < b.len() && b[k + 1] == '"' {
            lemma_close_quote(b, k + 2);
        } else if b[k] != '"' {
            lemma_close_quote(b, k + 1);
        }
    }
}

proof fn lemma_back(b: Seq<char>, k: int)
    requires
        0 <= k <= b.len(),
    ensures
        0 <= spaces_back(b, k) <= k,
        0 <= word_back(b, k) <= k,
    decreases k,
{
    if k > 0 {
        lemma_back(b, k - 1);
    }
}

/// The name of a marker's unnamed attribute.
fn default_key_of(name: &str) -> (r: String)
    ensures
        r@ == default_key(name@),
{
    proof {
        reveal_strlit("w");
        reveal_strlit("wa");
        reveal_strlit("wg");
        reveal_strlit("wh");
        reveal_strlit("rb");
        reveal_strlit("xt");
        reveal_strlit("ref");
        reveal_strlit("jmp");
        reveal_strlit("periph");
    }
    let n = chars_of(name);
    let key = if str_eq(name, "w") || str_eq(name, "wa") || str_eq(name, "wg") || str_eq(name, "wh") {
        "lemma"
    } else if str_eq(name, "rb") {
        "gloss"
    } else if str_eq(name, "xt") {
        "href"
    } else if str_eq(name, "ref") {
        "loc"
    } else if str_eq(name, "jmp") {
        "link-href"
    } else if str_eq(name, "periph") {
        "id"
    } else if n.len() >= 2 && n[0] == 'q' && n[1] == 't' {
        "who"
    } else {
        "default"
    };
    let mut out = String::new();
    crate::fmt::push_str(&mut out, key);
    proof {
        assert(Seq::<char>::empty() + key@ =~= key@);
    }
    out
}

fn next_eq_at(b: &Vec<char>, k: usize) -> (r: usize)
    requires
        k <= b@.len(),
    ensures
        r == next_eq(b@, k as int),
        k <= r <= b@.len(),
{
    proof {
        lemma_next_eq(b@, k as int);
    }
    let mut j = k;
    while j < b.len() && b[j] != '='
        invariant
            k <= j <= b@.len(),
            next_eq(b@, k as int) == next_eq(b@, j as int),
        decreases b.len() - j,
    {
        j += 1;
    }
    j
}

fn close_quote_at(b: &Vec<char>, k: usize) -> (r: usize)
    requires
        k <= b@.len(),
    ensures
        r == close_quote(b@, k as int),
        k <= r <= b@.len(),
{
    proof {
        lemma_close_quote(b@, k as int);
    }
    let mut j = k;
    while j < b.len() && b[j] != '"'
        invariant
            k <= j <= b@.len(),
            close_quote(b@, k as int) == close_quote(b@, j as int),
        decreases b.len() - j,
    {
        if b[j] == '\\' && j + 1 < b.len() && b[j + 1] == '"' {
            j += 2;
        } else {
            j += 1;
        }
    }
    j
}

/// Where the last word of `b[lo..hi)` starts and ends.
fn last_word_at(b: &Vec<char>, lo: usize, hi: usize) -> (r: (usize, usize))
    requires
        lo <= hi <= b@.len(),
    ensures
        lo <= r.0 <= r.1 <= hi,
        b@.subrange(r.0 as int, r.1 as int) == last_word(b@, lo as int, hi as int),
{
    proof {
        lemma_back(b@, hi as int);
    }
    let mut e = hi;
    while e > 0 && is_whitespace(b[e - 1])
        invariant
            e <= hi <= b@.len(),
            spaces_back(b@, hi as int) == spaces_back(b@, e as int),
        decreases e,
    {
        e -= 1;
    }
    let e2 = if e < lo { lo } else { e };
    proof {
        lemma_back(b@, e2 as int);
    }
    let mut s0 = e2;
    while s0 > 0 && !is_whitespace(b[s0 - 1])
        invariant
            s0 <= e2 <= b@.len(),
            word_back(b@, e2 as int) == word_back(b@, s0 as int),
        decreases s0,
    {
        s0 -= 1;
    }
    let s2 = if s0 < lo { lo } else { s0 };
    (s2, e2)
}

/// The `key=value` pairs of an attribute list.
fn pairs_of(b: &Vec<char>, owner: &str) -> (r: Vec<Attribute>)
    ensures
        attribute_views(r@) == pairs_from(b@, 0, owner@),
{
    let mut out: Vec<Attribute> = Vec::new();
    let mut i: usize = 0;
    assert(attribute_views(out@) + pairs_from(b@, 0, owner@) =~= pairs_from(b@, 0, owner@));
    loop
        invariant
            i <= b@.len(),
            attribute_views(out@) + pairs_from(b@, i as int, owner@) == pairs_from(b@, 0, owner@),
        ensures
            attribute_views(out@) == pairs_from(b@, 0, owner@),
        decreases b@.len() - i,
    {
        let (j, _) = word_bounds(b, i);
        if j >= b.len() {
            assert(pairs_from(b@, i as int, owner@) =~= Seq::<(Seq<char>, Seq<char>)>::empty());
            assert(attribute_views(out@) + Seq::<(Seq<char>, Seq<char>)>::empty() =~= attribute_views(out@));
            break;
        }
        let eq = next_eq_at(b, j);
        if eq >= b.len() {
            assert(pairs_from(b@, i as int, owner@) =~= Seq::<(Seq<char>, Seq<char>)>::empty());
            assert(attribute_views(out@) + Seq::<(Seq<char>, Seq<char>)>::empty() =~= attribute_views(out@));
            break;
        }
        let (ks, ke) = last_word_at(b, j, eq);
        let (v0, _) = word_bounds(b, eq + 1);
        let quoted = v0 < b.len() && b[v0] == '"';
        let (value, next) = if quoted {
            let q = close_quote_at(b, v0 + 1);
            let next = if q < b.len() { q + 1 } else { q };
            (string_from(b, v0 + 1, q), next)
        } else {
            let (_, e) = word_bounds(b, v0);
            proof {
                lemma_spaces_end(b@, v0 as int);
            }
            assert(spaces_end(b@, v0 as int) == v0) by {
                if (v0 as int) < b@.len() {
                    assert(!is_white_space(b@[v0 as int]) || v0 == b@.len()) by {
                        lemma_spaces_stop(b@, eq + 1);
                    }
                }
            }
            (string_from(b, v0, e), e)
        };
        let ghost head: Seq<(Seq<char>, Seq<char>)> = if ke > ks { seq![(attr_key(owner@, b@.subrange(ks as int, ke as int)), value@)] } else { Seq::empty() };
        let ghost before = attribute_views(out@);
        if ke > ks {
            let written = string_from(b, ks, ke);
            proof {
                reveal_strlit("fig");
                reveal_strlit("src");
                reveal_strlit("file");
            }
            let key = if str_eq(owner, "fig") && str_eq(written.as_str(), "src") {
                let mut f = String::new();
                crate::fmt::push_str(&mut f, "file");
                assert(Seq::<char>::empty() + "file"@ =~= "file"@);
                f
            } else {
                written
            };
            let a = Attribute { key, value };
            out.push(a);
            assert(attribute_views(out@) =~= before + head);
        } else {
            assert(before + head =~= before);
        }
        assert(pairs_from(b@, i as int, owner@) == head + pairs_from(b@, next as int, owner@));
        assert(attribute_views(out@) + pairs_from(b@, next as int, owner@) =~= before + pairs_from(b@, i as int, owner@));
        i = next;
    }
    out
}

proof fn lemma_spaces_stop(b: Seq<char>, k: int)
    requires
        0 <= k <= b.len(),
    ensures
        spaces_end(b, k) < b.len() ==> !is_white_space(b[spaces_end(b, k)]),
        spaces_end(b, spaces_end(b, k)) == spaces_end(b, k),
    decreases b.len() - k,
{
    if k < b.len() && is_white_space(b[k]) {
        lemma_spaces_stop(b, k + 1);
    }
}

/// The attributes one attribute run gives.
fn run_attributes_of(raw: &Vec<char>, owner: &str) -> (r: Vec<Attribute>)
    ensures
        attribute_views(r@) == run_attributes(raw@, owner@),
{
    let (lo, hi) = trim_bounds(raw, 0, raw.len());
    assert(raw@.subrange(0, raw@.len() as int) =~= raw@);
    let b = chars_of(string_from(raw, lo, hi).as_str());
    let mut out: Vec<Attribute> = Vec::new();
    if b.len() == 0 {
        assert(attribute_views(out@) =~= Seq::<(Seq<char>, Seq<char>)>::empty());
        return out;
    }
    if next_eq_at(&b, 0) >= b.len() {
        let a = Attribute { key: default_key_of(owner), value: string_from(&b, 0, b.len()) };
        out.push(a);
        assert(b@.subrange(0, b@.len() as int) =~= b@);
        assert(attribute_views(out@) =~= seq![(default_key(owner@), b@)]);
        return out;
    }
    pairs_of(&b, owner)
}

/// The attributes of the runs directly inside records `[i0, end)` of a
/// marker named `owner`.
fn collect_attributes(rs: &Vec<Record>, source: &str, i0: usize, end: usize, owner: &str) -> (r: Vec<Attribute>)
    requires
        end <= rs@.len(),
    ensures
        attribute_views(r@) == attributes_in(rs@, source.spec_bytes(), i0 as int, end as int, owner@),
{
    let ghost src = source.spec_bytes();
    let mut out: Vec<Attribute> = Vec::new();
    let mut i = i0;
    assert(attribute_views(out@) =~= Seq::<(Seq<char>, Seq<char>)>::empty());
    while i < end
        invariant
            i0 <= i,
            end <= rs@.len(),
            src == source.spec_bytes(),
            attribute_views(out@) + attributes_in(rs@, src, i as int, end as int, owner@)
                == attributes_in(rs@, src, i0 as int, end as int, owner@),
        decreases end - i,
    {
        let r = rs[i];
        if r.kind == 1 && i < r.link as usize && (r.link as usize) < end {
            i = r.link as usize + 1;
        } else if r.kind == 6 {
            let t = chars_of(text_of(source, &r).as_str());
            let first: usize = if t.len() > 0 && t[0] == '|' { 1 } else { 0 };
            let v = chars_of(string_from(&t, first, t.len()).as_str());
            proof {
                let tv = t@;
                if tv.len() > 0 && tv[0] == '|' {
                    assert(tv.subrange(1, tv.len() as int) =~= tv.drop_first());
                } else {
                    assert(tv.subrange(0, tv.len() as int) =~= tv);
                }
            }
            let mut got = run_attributes_of(&v, owner);
            let ghost before = attribute_views(out@);
            let ghost added = attribute_views(got@);
            out.append(&mut got);
            proof {
                assert(attribute_views(out@) =~= before + added);
                assert(attribute_views(out@) + attributes_in(rs@, src, i + 1, end as int, owner@)
                    =~= before + attributes_in(rs@, src, i as int, end as int, owner@));
            }
            i += 1;
        } else {
            i += 1;
        }
    }
    assert(attribute_views(out@) + Seq::<(Seq<char>, Seq<char>)>::empty() =~= attribute_views(out@));
    out
}

/// Where the first word at or after `k` starts and ends.
fn word_bounds(t: &Vec<char>, k: usize) -> (r: (usize, usize))
    requires
        k <= t@.len(),
    ensures
        r.0 == spaces_end(t@, k as int),
        r.1 == word_end(t@, r.0 as int),
        k <= r.0 <= r.1 <= t@.len(),
{
    let mut a = k;
    while a < t.len() && is_whitespace(t[a])
        invariant
            k <= a <= t@.len(),
            spaces_end(t@, k as int) == spaces_end(t@, a as int),
        decreases t.len() - a,
    {
        a += 1;
    }
    let mut b = a;
    while b < t.len() && !is_whitespace(t[b])
        invariant
            a <= b <= t@.len(),
            word_end(t@, a as int) == word_end(t@, b as int),
        decreases t.len() - b,
    {
        b += 1;
    }
    (a, b)
}

/// A chapter's or verse's marker and number, from its record's text.
fn number_parts(text: &str) -> (r: (String, String))
    ensures
        r.0@ == number_marker(text@),
        r.1@ == number_label(text@),
{
    let name = name_of(text);
    let n = chars_of(name.as_str());
    if n.len() > 1 {
        return (string_from(&n, 0, 1), string_from(&n, 1, n.len()));
    }
    let t = chars_of(text);
    let (a, b) = word_bounds(&t, 0);
    let (c, d) = word_bounds(&t, b);
    assert(n@ == written_name(text@));
    assert(n@.subrange(0, n@.len() as int) =~= n@);
    (string_from(&n, 0, n.len()), string_from(&t, c, d))
}

/// What a record that opens nothing in range becomes.
fn leaf_of(rs: &Vec<Record>, source: &str, i: usize) -> (r: Option<Node>)
    requires
        i < rs@.len(),
    ensures
        match r {
            Some(n) => leaf(rs@, source.spec_bytes(), i as int) == seq![node_view(n)],
            None => leaf(rs@, source.spec_bytes(), i as int) == Seq::<NodeView>::empty(),
        },
{
    let r = rs[i];
    let ghost src = source.spec_bytes();
    let mut n = Node::new(NodeKind::Text);
    n.anchor_cst = Some(i);
    proof {
        assert(views_of(n.children@) =~= Seq::<NodeView>::empty());
        assert(attribute_views(n.attributes@) =~= Seq::<(Seq<char>, Seq<char>)>::empty());
    }
    if r.kind == 3 || r.kind == 4 {
        let t = text_of(source, &r);
        n.kind = if r.kind == 3 { NodeKind::Chapter } else { NodeKind::Verse };
        let (marker, label) = number_parts(t.as_str());
        n.marker = Some(Marker(marker));
        let mut number = String::new();
        crate::fmt::push_str(&mut number, "number");
        proof {
            reveal_strlit("number");
            reveal_strlit("");
        }
        let a = Attribute { key: number, value: label };
        n.attributes.push(a);
        n.span = Some(ByteSpan::new(r.start as usize, end_of(&r)));
        assert(attribute_views(n.attributes@) =~= seq![("number"@, number_label(t@))]);
        Some(n)
    } else if r.kind == 5 {
        n.text = Some(text_of(source, &r));
        Some(n)
    } else if r.kind == 8 {
        n.kind = NodeKind::Unknown;
        n.span = Some(ByteSpan::new(r.start as usize, end_of(&r)));
        n.raw = Some(ByteSpan::new(r.start as usize, end_of(&r)));
        Some(n)
    } else if r.kind == 1 {
        let t = text_of(source, &r);
        let name = name_of(t.as_str());
        n.kind = kind_of(name.as_str(), marker_category(r.marker));
        n.marker = Some(Marker(name));
        n.span = Some(ByteSpan::new(r.start as usize, end_of(&r)));
        Some(n)
    } else {
        None
    }
}

/// The text of the first text leaf among `ns`, or nothing.
fn first_text_of(ns: &Vec<Node>) -> (r: String)
    ensures
        r@ == first_text(views_of(ns@)),
{
    let ghost vs = views_of(ns@);
    proof {
        crate::backend::pipes::lemma_views_len(ns@);
        assert(vs.skip(0) =~= vs);
    }
    let mut k: usize = 0;
    while k < ns.len()
        invariant
            k <= ns@.len(),
            vs == views_of(ns@),
            vs.len() == ns@.len(),
            first_text(vs) == first_text(vs.skip(k as int)),
        decreases ns.len() - k,
    {
        proof {
            lemma_view_at(ns@, k as int);
            assert(vs.skip(k as int)[0] == vs[k as int]);
            assert(vs.skip(k as int).drop_first() =~= vs.skip(k + 1));
        }
        if ns[k].kind == NodeKind::Text {
            match &ns[k].text {
                Some(t) => {
                    return t.clone();
                },
                None => {},
            }
        }
        k += 1;
    }
    assert(vs.skip(k as int) =~= Seq::<NodeView>::empty());
    String::new()
}

/// A book's content once its code is taken out.
fn book_content_of(kids: Vec<Node>) -> (r: Vec<Node>)
    ensures
        views_of(r@) == book_content(views_of(kids@)),
{
    let ghost vs = views_of(kids@);
    proof {
        crate::backend::pipes::lemma_views_len(kids@);
    }
    if kids.len() == 0 || kids[0].kind != NodeKind::Text || kids[0].text.is_none() {
        proof {
            if kids@.len() > 0 {
                lemma_view_at(kids@, 0);
            }
        }
        return kids;
    }
    proof {
        lemma_view_at(kids@, 0);
    }
    let t = chars_of(kids[0].text.as_ref().unwrap().as_str());
    let (_, w) = word_bounds(&t, 0);
    let (lo, hi) = trim_bounds(&t, w, t.len());
    let rest = string_from(&t, lo, hi);
    let mut kids = kids;
    let ghost old_kids = kids@;
    let first = kids.remove(0);
    proof {
        lemma_views_map(old_kids);
        lemma_views_map(kids@);
        assert(kids@ =~= old_kids.drop_first());
        assert(views_of(kids@) =~= vs.drop_first());
    }
    if lo < hi {
        let n = Node {
            kind: first.kind,
            marker: first.marker,
            attributes: first.attributes,
            span: first.span,
            anchor_cst: first.anchor_cst,
            children: first.children,
            text: Some(rest),
            raw: first.raw,
        };
        let ghost before = kids@;
        kids.insert(0, n);
        proof {
            lemma_views_map(kids@);
            assert(kids@ =~= seq![n] + before);
            assert(views_of(kids@) =~= vs.update(0, NodeView { text: Some(rest@), ..vs[0] }));
        }
    }
    kids
}

/// The views of a list are its nodes' views, one by one.
proof fn lemma_views_map(ns: Seq<Node>)
    ensures
        views_of(ns) =~= ns.map_values(|n: Node| node_view(n)),
    decreases ns.len(),
{
    if ns.len() > 0 {
        lemma_views_map(ns.drop_last());
        assert(ns.map_values(|n: Node| node_view(n)).drop_last() =~= ns.drop_last().map_values(|n: Node| node_view(n)));
    }
}

/// The attributes a node has from its content.
fn content_attributes_of(kind: NodeKind, kids: &Vec<Node>) -> (r: Vec<Attribute>)
    ensures
        attribute_views(r@) == content_attributes(kind, views_of(kids@)),
{
    let mut out: Vec<Attribute> = Vec::new();
    if kind == NodeKind::Book || kind == NodeKind::Note {
        let t = chars_of(first_text_of(kids).as_str());
        let (a, b) = word_bounds(&t, 0);
        let mut key = String::new();
        if kind == NodeKind::Book {
            crate::fmt::push_str(&mut key, "code");
        } else {
            crate::fmt::push_str(&mut key, "caller");
        }
        proof {
            reveal_strlit("code");
            reveal_strlit("caller");
            assert(Seq::<char>::empty() + "code"@ =~= "code"@);
            assert(Seq::<char>::empty() + "caller"@ =~= "caller"@);
        }
        out.push(Attribute { key, value: string_from(&t, a, b) });
    }
    if kind == NodeKind::Note || kind == NodeKind::Sidebar {
        let mut more = category_of_nodes(kids);
        out.append(&mut more);
        assert(attribute_views(out@) =~= content_attributes(kind, views_of(kids@)));
    } else {
        assert(attribute_views(out@) =~= content_attributes(kind, views_of(kids@)));
    }
    out
}

/// A note's or sidebar's `category`.
fn category_of_nodes(kids: &Vec<Node>) -> (r: Vec<Attribute>)
    ensures
        attribute_views(r@) == category_of(views_of(kids@)),
{
    let ghost vs = views_of(kids@);
    proof {
        crate::backend::pipes::lemma_views_len(kids@);
        reveal_strlit("cat");
        reveal_strlit("category");
    }
    let mut k: usize = 0;
    while k < kids.len()
        invariant
            k <= kids@.len(),
            vs == views_of(kids@),
            vs.len() == kids@.len(),
            cat_from(vs, 0) == cat_from(vs, k as int),
        decreases kids.len() - k,
    {
        proof {
            lemma_view_at(kids@, k as int);
        }
        if marker_is(&kids[k].marker, "cat", "cat") {
            let mut out: Vec<Attribute> = Vec::new();
            out.push(attribute("category", number_text(&kids[k].children)));
            assert(attribute_views(out@) =~= category_of(vs));
            return out;
        }
        k += 1;
    }
    let out: Vec<Attribute> = Vec::new();
    assert(attribute_views(out@) =~= category_of(vs));
    out
}

/// Whether a marker is one of two names.
fn marker_is(m: &Option<Marker>, a: &str, b: &str) -> (r: bool)
    ensures
        r == (match m {
            Some(x) => x.0@ == a@ || x.0@ == b@,
            None => false,
        }),
{
    match m {
        Some(x) => str_eq(x.0.as_str(), a) || str_eq(x.0.as_str(), b),
        None => false,
    }
}

/// The trimmed text of the first text leaf among `ns`.
fn number_text(ns: &Vec<Node>) -> (r: String)
    ensures
        r@ == trim_chars(first_text(views_of(ns@))),
{
    let t = chars_of(first_text_of(ns).as_str());
    let (lo, hi) = trim_bounds(&t, 0, t.len());
    assert(t@.subrange(0, t@.len() as int) =~= t@);
    string_from(&t, lo, hi)
}

/// An attribute, made from two strings.
fn attribute(key: &str, value: String) -> (a: Attribute)
    ensures
        a.key@ == key@,
        a.value@ == value@,
{
    let mut k = String::new();
    crate::fmt::push_str(&mut k, key);
    assert(Seq::<char>::empty() + key@ =~= key@);
    Attribute { key: k, value }
}

/// Where the blank text nodes from `k` on end.
fn past_blank_of(ns: &Vec<Node>, k: usize) -> (r: usize)
    requires
        k <= ns@.len(),
    ensures
        r == past_blank(views_of(ns@), k as int),
        k <= r <= ns@.len(),
{
    let ghost vs = views_of(ns@);
    proof {
        crate::backend::pipes::lemma_views_len(ns@);
    }
    let mut j = k;
    while j < ns.len() && is_blank_node(&ns[j])
        invariant
            k <= j <= ns@.len(),
            vs == views_of(ns@),
            vs.len() == ns@.len(),
            past_blank(vs, k as int) == past_blank(vs, j as int),
        decreases ns.len() - j,
    {
        proof {
            lemma_view_at(ns@, j as int);
        }
        j += 1;
    }
    proof {
        if (j as int) < ns@.len() {
            lemma_view_at(ns@, j as int);
        }
    }
    j
}

/// Whether a node is text that is all white space.
fn is_blank_node(n: &Node) -> (b: bool)
    ensures
        b == is_blank(node_view(*n)),
{
    if n.kind != NodeKind::Text {
        return false;
    }
    match &n.text {
        Some(t) => {
            let cs = chars_of(t.as_str());
            let (lo, hi) = trim_bounds(&cs, 0, cs.len());
            assert(cs@.subrange(0, cs@.len() as int) =~= cs@);
            lo == hi
        },
        None => false,
    }
}

/// The siblings `ns` with the chapters' and verses' alternate and published
/// numbers folded in, at every depth.
pub fn fold_numbers(ns: &Vec<Node>) -> (r: Vec<Node>)
    ensures
        views_of(r@) == folded_from(views_of(ns@), 0),
    decreases ns@,
{
    let ghost vs = views_of(ns@);
    proof {
        crate::backend::pipes::lemma_views_len(ns@);
        reveal_strlit("ca");
        reveal_strlit("va");
        reveal_strlit("cp");
        reveal_strlit("vp");
    }
    let mut out: Vec<Node> = Vec::new();
    let mut k: usize = 0;
    assert(views_of(out@) + folded_from(vs, 0) =~= folded_from(vs, 0));
    while k < ns.len()
        invariant
            k <= ns@.len(),
            vs == views_of(ns@),
            vs.len() == ns@.len(),
            views_of(out@) + folded_from(vs, k as int) == folded_from(vs, 0),
        decreases ns.len() - k,
    {
        proof {
            lemma_view_at(ns@, k as int);
        }
        let node = &ns[k];
        let ghost before = out@;
        if node.kind == NodeKind::Chapter || node.kind == NodeKind::Verse {
            let mut attributes = copy_attributes(&node.attributes);
            let a = past_blank_of(ns, k + 1);
            let has_alt = a < ns.len() && marker_is(&ns[a].marker, "ca", "va");
            proof {
                if (a as int) < ns@.len() {
                    lemma_view_at(ns@, a as int);
                }
            }
            let ghost pre = attribute_views(attributes@);
            if has_alt {
                attributes.push(attribute("altnumber", number_text(&ns[a].children)));
                proof {
                    reveal_strlit("altnumber");
                }
                assert(attribute_views(attributes@) =~= pre + optional_attribute("altnumber"@, Some(trim_chars(first_text(vs[a as int].children)))));
            } else {
                assert(attribute_views(attributes@) =~= pre + optional_attribute("altnumber"@, None));
            }
            let j1 = if has_alt { a + 1 } else { k + 1 };
            let b = past_blank_of(ns, j1);
            let has_pub = b < ns.len() && marker_is(&ns[b].marker, "cp", "vp");
            proof {
                if (b as int) < ns@.len() {
                    lemma_view_at(ns@, b as int);
                }
            }
            let ghost mid = attribute_views(attributes@);
            if has_pub {
                attributes.push(attribute("pubnumber", number_text(&ns[b].children)));
                proof {
                    reveal_strlit("pubnumber");
                }
                assert(attribute_views(attributes@) =~= mid + optional_attribute("pubnumber"@, Some(trim_chars(first_text(vs[b as int].children)))));
            } else {
                assert(attribute_views(attributes@) =~= mid + optional_attribute("pubnumber"@, None));
            }
            let j = if has_pub { b + 1 } else { j1 };
            let n = Node {
                kind: node.kind,
                marker: copy_marker(&node.marker),
                attributes,
                span: copy_span(&node.span),
                anchor_cst: node.anchor_cst,
                children: copy_children(&node.children),
                text: copy_text(&node.text),
                raw: copy_span(&node.raw),
            };
            out.push(n);
            proof {
                assert(out@.drop_last() =~= before);
                assert(views_of(out@) == views_of(before).push(node_view(n)));
                assert(views_of(out@) + folded_from(vs, j as int) =~= views_of(before) + folded_from(vs, k as int));
            }
            k = j;
        } else {
            let kids = fold_numbers(&node.children);
            let n = Node {
                kind: node.kind,
                marker: copy_marker(&node.marker),
                attributes: copy_attributes(&node.attributes),
                span: copy_span(&node.span),
                anchor_cst: node.anchor_cst,
                children: kids,
                text: copy_text(&node.text),
                raw: copy_span(&node.raw),
            };
            out.push(n);
            proof {
                assert(out@.drop_last() =~= before);
                assert(views_of(out@) == views_of(before).push(node_view(n)));
                assert(views_of(out@) + folded_from(vs, k + 1) =~= views_of(before) + folded_from(vs, k as int));
            }
            k += 1;
        }
    }
    assert(views_of(out@) + Seq::<NodeView>::empty() =~= views_of(out@));
    out
}

/// The value of the first attribute named `key`, or nothing.
fn attr_value_of(attrs: &Vec<Attribute>, key: &str) -> (r: String)
    ensures
        r@ == attr_value(attribute_views(attrs@), key@),
{
    let ghost av = attribute_views(attrs@);
    let mut j: usize = 0;
    assert(av.skip(0) =~= av);
    while j < attrs.len()
        invariant
            j <= attrs@.len(),
            av == attribute_views(attrs@),
            av.len() == attrs@.len(),
            attr_value(av, key@) == attr_value(av.skip(j as int), key@),
        decreases attrs.len() - j,
    {
        proof {
            assert(av.skip(j as int)[0] == av[j as int]);
            assert(av.skip(j as int).drop_first() =~= av.skip(j + 1));
        }
        if str_eq(attrs[j].key.as_str(), key) {
            return attrs[j].value.clone();
        }
        j += 1;
    }
    assert(av.skip(j as int) =~= Seq::<(Seq<char>, Seq<char>)>::empty());
    String::new()
}

/// The siblings `ns` with each chapter and verse given its `sid`.
pub fn add_sids(ns: &Vec<Node>, book: String, chapter: String) -> (r: (Vec<Node>, String, String))
    ensures
        (views_of(r.0@), r.1@, r.2@) == sided_from(views_of(ns@), 0, book@, chapter@),
    decreases ns@,
{
    let ghost vs = views_of(ns@);
    let ghost b0 = book@;
    let ghost c0 = chapter@;
    proof {
        crate::backend::pipes::lemma_views_len(ns@);
        reveal_strlit("number");
        reveal_strlit("code");
        reveal_strlit("sid");
        reveal_strlit(" ");
        reveal_strlit(":");
    }
    let mut out: Vec<Node> = Vec::new();
    let mut b = book;
    let mut c = chapter;
    let mut k: usize = 0;
    assert(views_of(out@) + sided_from(vs, 0, b@, c@).0 =~= sided_from(vs, 0, b0, c0).0);
    while k < ns.len()
        invariant
            k <= ns@.len(),
            vs == views_of(ns@),
            vs.len() == ns@.len(),
            views_of(out@) + sided_from(vs, k as int, b@, c@).0 == sided_from(vs, 0, b0, c0).0,
            sided_from(vs, k as int, b@, c@).1 == sided_from(vs, 0, b0, c0).1,
            sided_from(vs, k as int, b@, c@).2 == sided_from(vs, 0, b0, c0).2,
        decreases ns.len() - k,
    {
        proof {
            lemma_view_at(ns@, k as int);
        }
        let node = &ns[k];
        let ghost before = out@;
        let ghost bk = b@;
        let ghost ck = c@;
        let n: Node;
        if node.kind == NodeKind::Chapter || node.kind == NodeKind::Verse {
            let number = attr_value_of(&node.attributes, "number");
            let mut sid = String::new();
            crate::fmt::push_str(&mut sid, b.as_str());
            crate::fmt::push_str(&mut sid, " ");
            if node.kind == NodeKind::Verse {
                crate::fmt::push_str(&mut sid, c.as_str());
                crate::fmt::push_str(&mut sid, ":");
            }
            crate::fmt::push_str(&mut sid, number.as_str());
            let mut attributes = copy_attributes(&node.attributes);
            let ghost pre = attribute_views(attributes@);
            attributes.push(attribute("sid", sid));
            assert(attribute_views(attributes@) =~= pre.push(("sid"@, sid@)));
            assert(Seq::<char>::empty() + bk =~= bk);
            n = Node {
                kind: node.kind,
                marker: copy_marker(&node.marker),
                attributes,
                span: copy_span(&node.span),
                anchor_cst: node.anchor_cst,
                children: copy_children(&node.children),
                text: copy_text(&node.text),
                raw: copy_span(&node.raw),
            };
            if node.kind == NodeKind::Chapter {
                c = number;
            }
        } else if node.kind == NodeKind::Book {
            b = attr_value_of(&node.attributes, "code");
            n = copy_node(node);
        } else {
            let (kids, b2, c2) = add_sids(&node.children, b, c);
            b = b2;
            c = c2;
            n = Node {
                kind: node.kind,
                marker: copy_marker(&node.marker),
                attributes: copy_attributes(&node.attributes),
                span: copy_span(&node.span),
                anchor_cst: node.anchor_cst,
                children: kids,
                text: copy_text(&node.text),
                raw: copy_span(&node.raw),
            };
        }
        out.push(n);
        proof {
            assert(out@.drop_last() =~= before);
            assert(views_of(out@) == views_of(before).push(node_view(n)));
            assert(views_of(out@) + sided_from(vs, k + 1, b@, c@).0 =~= views_of(before) + sided_from(vs, k as int, bk, ck).0);
        }
        k += 1;
    }
    assert(views_of(out@) + Seq::<NodeView>::empty() =~= views_of(out@));
    (out, b, c)
}

/// Copies of a list of nodes.
fn copy_children(ns: &Vec<Node>) -> (r: Vec<Node>)
    ensures
        views_of(r@) == views_of(ns@),
{
    let mut out: Vec<Node> = Vec::new();
    let mut i: usize = 0;
    assert(ns@.take(0) =~= Seq::<Node>::empty());
    while i < ns.len()
        invariant
            i <= ns@.len(),
            views_of(out@) == views_of(ns@.take(i as int)),
        decreases ns.len() - i,
    {
        let c = copy_node(&ns[i]);
        let ghost before = out@;
        out.push(c);
        proof {
            lemma_views_take(ns@, i as int);
            assert(out@.drop_last() =~= before);
            assert(views_of(out@) == views_of(before).push(node_view(c)));
        }
        i += 1;
    }
    assert(ns@.take(ns@.len() as int) =~= ns@);
    out
}

/// The number a chapter or verse at record `i` takes from the text after it.
fn borrow_word(rs: &Vec<Record>, source: &str, i: usize, end: usize) -> (r: Option<String>)
    requires
        i + 1 < end <= rs@.len(),
        rs@[i as int].kind == 3 || rs@[i as int].kind == 4,
        rs@[i + 1].kind == 5,
    ensures
        opt_chars(r) == borrowed_number(rs@, source.spec_bytes(), i as int, end as int),
{
    let t = text_of(source, &rs[i]);
    let (_, label) = number_parts(t.as_str());
    if chars_of(label.as_str()).len() != 0 {
        return None;
    }
    let _n = rs.len();
    let u = chars_of(text_of(source, &rs[i + 1]).as_str());
    let (a, w) = word_bounds(&u, 0);
    if w > a {
        Some(string_from(&u, a, w))
    } else {
        None
    }
}

/// A chapter or verse that takes its number from the text after it, then
/// what is left of that text.
fn lower_borrowed(rs: &Vec<Record>, source: &str, i: usize, end: usize) -> (r: Vec<Node>)
    requires
        i + 1 < end <= rs@.len(),
        rs@[i as int].kind == 3 || rs@[i as int].kind == 4,
        rs@[i + 1].kind == 5,
        borrowed_number(rs@, source.spec_bytes(), i as int, end as int) is Some,
    ensures
        views_of(r@) + lowered(rs@, source.spec_bytes(), i + 2, end as int)
            == lowered(rs@, source.spec_bytes(), i as int, end as int),
{
    let ghost src = source.spec_bytes();
    let word = borrow_word(rs, source, i, end).unwrap();
    let found = leaf_of(rs, source, i);
    assert(leaf(rs@, src, i as int).len() == 1);
    let mut n = found.unwrap();
    let mut key = String::new();
    crate::fmt::push_str(&mut key, "number");
    proof {
        reveal_strlit("number");
        assert(Seq::<char>::empty() + "number"@ =~= "number"@);
    }
    let mut attributes: Vec<Attribute> = Vec::new();
    attributes.push(Attribute { key, value: word });
    n.attributes = attributes;
    let mut out: Vec<Node> = Vec::new();
    out.push(n);
    let ghost mid = out@;
    let mut rest = rest_after_word(rs, source, i + 1);
    let ghost added = rest@;
    out.append(&mut rest);
    proof {
        assert(attribute_views(n.attributes@) =~= seq![("number"@, borrowed_number(rs@, src, i as int, end as int)->0)]);
        let e = Seq::<Node>::empty();
        assert(mid =~= e.push(n));
        assert(e.push(n).drop_last() =~= e);
        assert(views_of(e) =~= Seq::<NodeView>::empty());
        assert(views_of(mid) =~= seq![node_view(n)]);
        crate::chunk::lemma_views_concat_pub(mid, added);
        assert(views_of(out@) + lowered(rs@, src, i + 2, end as int)
            =~= lowered(rs@, src, i as int, end as int));
    }
    out
}

/// What is left of the text record `i` once its first word is taken.
fn rest_after_word(rs: &Vec<Record>, source: &str, i: usize) -> (r: Vec<Node>)
    requires
        i < rs@.len(),
    ensures
        views_of(r@) == text_after_number(rs@, source.spec_bytes(), i as int),
{
    let u = chars_of(text_of(source, &rs[i]).as_str());
    let (_, w) = word_bounds(&u, 0);
    let mut out: Vec<Node> = Vec::new();
    if w < u.len() {
        let mut n = Node::new(NodeKind::Text);
        n.anchor_cst = Some(i);
        n.text = Some(string_from(&u, w, u.len()));
        proof {
            assert(views_of(n.children@) =~= Seq::<NodeView>::empty());
            assert(attribute_views(n.attributes@) =~= Seq::<(Seq<char>, Seq<char>)>::empty());
        }
        out.push(n);
        proof {
            let e = Seq::<Node>::empty();
            assert(out@ =~= e.push(n));
            assert(e.push(n).drop_last() =~= e);
            assert(views_of(e.push(n)) == views_of(e).push(node_view(n)));
            assert(views_of(e) =~= Seq::<NodeView>::empty());
        }
        assert(views_of(out@) =~= seq![node_view(n)]);
    } else {
        assert(views_of(out@) =~= Seq::<NodeView>::empty());
    }
    out
}

/// The characters of an optional string.
pub open spec fn opt_chars(s: Option<String>) -> Option<Seq<char>> {
    match s {
        Some(t) => Some(t@),
        None => None,
    }
}

/// Lowers records `[i0, end)` of the tape.
#[verifier::rlimit(40)]
pub fn lower_range(rs: &Vec<Record>, source: &str, i0: usize, end: usize) -> (r: Vec<Node>)
    requires
        end <= rs@.len(),
    ensures
        views_of(r@) == lowered(rs@, source.spec_bytes(), i0 as int, end as int),
    decreases end - i0,
{
    let ghost src = source.spec_bytes();
    let mut out: Vec<Node> = Vec::new();
    let mut i = i0;
    assert(views_of(out@) =~= Seq::<NodeView>::empty());
    while i < end
        invariant
            i0 <= i,
            end <= rs@.len(),
            src == source.spec_bytes(),
            views_of(out@) + lowered(rs@, src, i as int, end as int) == lowered(rs@, src, i0 as int, end as int),
        decreases end - i,
    {
        let r = rs[i];
        let ghost before = out@;
        if r.kind == 1 && i < r.link as usize && (r.link as usize) < end {
            let c = r.link as usize;
            let kids = lower_range(rs, source, i + 1, c);
            let t = text_of(source, &r);
            let name = name_of(t.as_str());
            let kind = kind_of(name.as_str(), marker_category(r.marker));
            let mut attributes = content_attributes_of(kind, &kids);
            let mut runs = collect_attributes(rs, source, i + 1, c, name.as_str());
            let kids = if kind == NodeKind::Book { book_content_of(kids) } else { kids };
            let ghost head = attribute_views(attributes@);
            let ghost tail = attribute_views(runs@);
            attributes.append(&mut runs);
            assert(attribute_views(attributes@) =~= head + tail);
            let close_end = end_of(&rs[c]);
            let n = Node {
                kind,
                marker: Some(Marker(name)),
                attributes,
                span: Some(ByteSpan::new(r.start as usize, close_end)),
                anchor_cst: Some(i),
                children: kids,
                text: None,
                raw: None,
            };
            out.push(n);
            proof {
                assert(out@.drop_last() =~= before);
                assert(views_of(out@) == views_of(before).push(node_view(n)));
                assert(views_of(out@) + lowered(rs@, src, c + 1, end as int)
                    =~= views_of(before) + lowered(rs@, src, i as int, end as int));
            }
            i = c + 1;
        } else if (r.kind == 3 || r.kind == 4) && i + 1 < end && rs[i + 1].kind == 5 && borrow_word(rs, source, i, end).is_some() {
            let mut part = lower_borrowed(rs, source, i, end);
            let ghost added = part@;
            out.append(&mut part);
            proof {
                crate::chunk::lemma_views_concat_pub(before, added);
                assert(views_of(out@) + lowered(rs@, src, i + 2, end as int)
                    =~= views_of(before) + lowered(rs@, src, i as int, end as int));
            }
            i += 2;
        } else {
            match leaf_of(rs, source, i) {
                Some(n) => {
                    out.push(n);
                    proof {
                        assert(out@.drop_last() =~= before);
                        assert(views_of(out@) == views_of(before).push(node_view(n)));
                        assert(views_of(out@) + lowered(rs@, src, i + 1, end as int)
                            =~= views_of(before) + lowered(rs@, src, i as int, end as int));
                    }
                },
                None => {
                    assert(views_of(out@) + lowered(rs@, src, i + 1, end as int)
                        =~= views_of(before) + lowered(rs@, src, i as int, end as int));
                },
            }
            i += 1;
        }
    }
    assert(views_of(out@) + Seq::<NodeView>::empty() =~= views_of(out@));
    out
}

/// The unnamed attributes USFM 3 gives its markers, as (marker, attribute)
/// pairs: a word's lemma, ruby's gloss, a link's target, a reference's
/// location, a peripheral's identifier. Quotation milestones (`qt…`) name
/// the speaker, `who`.
pub open spec fn usfm_default_attributes() -> Seq<(Seq<char>, Seq<char>)> {
    seq![
        ("w"@, "lemma"@),
        ("wa"@, "lemma"@),
        ("wg"@, "lemma"@),
        ("wh"@, "lemma"@),
        ("rb"@, "gloss"@),
        ("jmp"@, "link-href"@),
        ("ref"@, "loc"@),
        ("periph"@, "id"@),
        ("qt-s"@, "who"@),
        ("qt1-s"@, "who"@),
        ("qt2-s"@, "who"@),
    ]
}

/// A bare attribute value (one with no `=`) on a marker that USFM gives an
/// unnamed attribute is kept under that attribute's name: `\\jmp see|url\\jmp*`
/// gives `link-href = "url"`, `\\w grace|grace\\w*` gives `lemma = "grace"`.
pub proof fn bare_values_go_under_the_markers_unnamed_attribute(raw: Seq<char>, k: int)
    requires
        0 <= k < usfm_default_attributes().len(),
        trim_chars(raw).len() > 0,
        forall|i: int| 0 <= i < trim_chars(raw).len() ==> #[trigger] trim_chars(raw)[i] != '=',
    ensures
        run_attributes(raw, usfm_default_attributes()[k].0)
            == seq![(usfm_default_attributes()[k].1, trim_chars(raw))],
{
    let b = trim_chars(raw);
    lemma_no_eq(b, 0);
    reveal_strlit("w");
    reveal_strlit("wa");
    reveal_strlit("wg");
    reveal_strlit("wh");
    reveal_strlit("rb");
    reveal_strlit("jmp");
    reveal_strlit("ref");
    reveal_strlit("periph");
    reveal_strlit("qt-s");
    reveal_strlit("qt1-s");
    reveal_strlit("qt2-s");
    reveal_strlit("xt");
    reveal_strlit("lemma");
    reveal_strlit("gloss");
    reveal_strlit("link-href");
    reveal_strlit("loc");
    reveal_strlit("id");
    reveal_strlit("who");
    let t = usfm_default_attributes();
    let m = t[k].0;
    assert(default_key(m) == t[k].1) by {
        if k == 0 {
            assert(m =~= "w"@);
        } else if k == 1 {
            assert(m =~= "wa"@);
        } else if k == 2 {
            assert(m =~= "wg"@);
            lemma_differ_at(m, "wa"@, 1);
        } else if k == 3 {
            assert(m =~= "wh"@);
            lemma_differ_at(m, "wa"@, 1);
            lemma_differ_at(m, "wg"@, 1);
        } else if k == 4 {
            assert(m =~= "rb"@);
            lemma_differ_at(m, "wa"@, 0);
            lemma_differ_at(m, "wg"@, 0);
            lemma_differ_at(m, "wh"@, 0);
        } else if k == 5 {
            assert(m =~= "jmp"@);
            lemma_differ_at(m, "ref"@, 0);
        } else if k == 6 {
            assert(m =~= "ref"@);
        } else if k == 7 {
            assert(m =~= "periph"@);
        } else {
            assert(m[0] == 'q' && m[1] == 't');
        }
    }
}

/// A bare attribute value on a marker that has no unnamed attribute of its
/// own (not one of [`usfm_default_attributes`], nor `\\xt`, nor a quotation
/// milestone) is kept under the name `default`, as the parser's USJ does.
pub proof fn other_bare_values_are_kept_as_default(raw: Seq<char>, m: Seq<char>)
    requires
        forall|k: int| 0 <= k < usfm_default_attributes().len() ==> #[trigger] usfm_default_attributes()[k].0 != m,
        m != "xt"@,
        !(m.len() >= 2 && m[0] == 'q' && m[1] == 't'),
        trim_chars(raw).len() > 0,
        forall|i: int| 0 <= i < trim_chars(raw).len() ==> #[trigger] trim_chars(raw)[i] != '=',
    ensures
        run_attributes(raw, m) == seq![("default"@, trim_chars(raw))],
{
    lemma_no_eq(trim_chars(raw), 0);
    let t = usfm_default_attributes();
    assert(t[0].0 != m && t[1].0 != m && t[2].0 != m && t[3].0 != m && t[4].0 != m);
    assert(t[5].0 != m && t[6].0 != m && t[7].0 != m);
}

proof fn lemma_differ_at(a: Seq<char>, b: Seq<char>, i: int)
    requires
        0 <= i < a.len(),
        i < b.len(),
        a[i] != b[i],
    ensures
        a != b,
{
}

proof fn lemma_no_eq(b: Seq<char>, k: int)
    requires
        0 <= k <= b.len(),
        forall|i: int| 0 <= i < b.len() ==> #[trigger] b[i] != '=',
    ensures
        next_eq(b, k) == b.len(),
    decreases b.len() - k,
{
    if k < b.len() {
        lemma_no_eq(b, k + 1);
    }
}

} // verus!
