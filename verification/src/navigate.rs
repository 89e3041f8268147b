//! Finding one's way around a session: going to a reference, reading a
//! position back as one, and finding text in either spelling.

use vstd::prelude::*;
use vstd::string::StringSliceAdditionalSpecFns;
use crate::backend::pipes::views_of;
use crate::chunk::{book_code_in, fits_all};
use crate::node::{preorder_all, Node};
use crate::reference::{opt_text, parse_reference, reference_at, reference_text, resolution_for, resolve_with, Reference, Resolution, ResolutionView};
use crate::session::{Chunk, Session};
use crate::span::ByteSpan;
use crate::verse::{index_walk, VerseIndex};
use crate::text::str_len;
use crate::completion::Context;
use crate::backend::pipes::{lemma_view_at, node_view, NodeView};
use crate::node::NodeKind;
use crate::normalize::{index_of, nfc, spans_from, NormalizedIndex};

verus! {

/// Just past the first line break in `b[s..e)`, or `e`.
pub open spec fn line_end(b: Seq<u8>, s: int, e: int) -> int
    decreases e - s,
{
    if s < 0 || s >= e || s >= b.len() {
        e
    } else if b[s] == 0x0A {
        s + 1
    } else {
        line_end(b, s + 1, e)
    }
}

/// The first chunk from `k` on that is chapter `n`.
pub open spec fn chunk_numbered(t: Seq<Chunk>, n: u32, k: int) -> Option<int>
    decreases t.len() - k,
{
    if k < 0 || k >= t.len() {
        None
    } else if t[k]@.0 == Some(n) {
        Some(k)
    } else {
        chunk_numbered(t, n, k + 1)
    }
}

/// The last of the first `k` chunks that starts at or before `offset`.
pub open spec fn chunk_by(t: Seq<Chunk>, offset: usize, k: int) -> Option<int>
    decreases k,
{
    if k <= 0 || k > t.len() {
        None
    } else if t[k - 1]@.1 <= offset {
        Some(k - 1)
    } else {
        chunk_by(t, offset, k - 1)
    }
}

/// The spans of the non-overlapping occurrences of `q` in `b` at or after
/// byte `i`, leftmost first.
pub open spec fn exact_from(b: Seq<u8>, q: Seq<u8>, i: int) -> Seq<ByteSpan>
    decreases b.len() - i,
{
    if q.len() == 0 || i < 0 || i + q.len() > b.len() {
        Seq::empty()
    } else if b.subrange(i, i + q.len()) == q {
        seq![ByteSpan { start: i as usize, end: (i + q.len()) as usize }] + exact_from(b, q, i + q.len())
    } else {
        exact_from(b, q, i + 1)
    }
}

/// Where the line holding byte `at` starts.
pub open spec fn line_start(b: Seq<u8>, at: int) -> int
    decreases at,
{
    if at <= 0 || at > b.len() {
        if at <= 0 { 0 } else { line_start(b, b.len() as int) }
    } else if b[at - 1] == 0x0A {
        at
    } else {
        line_start(b, at - 1)
    }
}

/// Whether only spaces and tabs lie in `b[s..at)`.
pub open spec fn blank_between(b: Seq<u8>, s: int, at: int) -> bool {
    forall|k: int| s <= k < at ==> #[trigger] b[k] == 0x20 || b[k] == 0x09
}

/// The innermost character or note marker among `vs[k..]` whose span holds
/// `at` strictly inside it, searching in document order.
pub open spec fn innermost_from(vs: Seq<NodeView>, k: int, at: usize) -> Option<Seq<char>>
    decreases vs, vs.len() - k,
{
    if k < 0 || k >= vs.len() {
        None
    } else {
        let v = vs[k];
        let deeper = innermost_from(v.children, 0, at);
        let here = (v.kind == NodeKind::Char || v.kind == NodeKind::Note)
            && (match v.span {
                Some(sp) => sp.start < at && at < sp.end,
                None => false,
            })
            && v.marker is Some;
        if deeper is Some {
            deeper
        } else if here {
            v.marker
        } else {
            innermost_from(vs, k + 1, at)
        }
    }
}

/// The innermost character or note marker open at `at`.
fn innermost_of(ns: &Vec<Node>, at: usize) -> (r: Option<String>)
    ensures
        opt_text(r) == innermost_from(views_of(ns@), 0, at),
    decreases ns@,
{
    let ghost vs = views_of(ns@);
    proof {
        crate::backend::pipes::lemma_views_len(ns@);
    }
    let mut k: usize = 0;
    while k < ns.len()
        invariant
            k <= ns@.len(),
            vs == views_of(ns@),
            vs.len() == ns@.len(),
            innermost_from(vs, 0, at) == innermost_from(vs, k as int, at),
        decreases ns.len() - k,
    {
        proof {
            lemma_view_at(ns@, k as int);
        }
        let node = &ns[k];
        let deeper = innermost_of(&node.children, at);
        if deeper.is_some() {
            return deeper;
        }
        if node.kind == NodeKind::Char || node.kind == NodeKind::Note {
            match (&node.span, &node.marker) {
                (Some(sp), Some(m)) => {
                    if sp.start < at && at < sp.end {
                        return Some(m.0.clone());
                    }
                },
                _ => {},
            }
        }
        k += 1;
    }
    None
}

impl Session {
    /// Where chapter `n` begins: its `\c` line, up to and including its line
    /// break; nothing when no chunk is that chapter.
    pub open spec fn chapter_line(&self, n: u16) -> Option<ByteSpan> {
        match chunk_numbered(self.table(), n as u32, 0) {
            Some(k) => {
                let s = self.table()[k]@.1;
                let e = self.table()[k]@.2;
                Some(ByteSpan { start: s as usize, end: line_end(self.bytes(), s, e) as usize })
            },
            None => None,
        }
    }

    /// The book the document says it is, from its header.
    pub open spec fn document_book(&self) -> Option<Seq<char>> {
        if self.table()[0]@.0 is None { book_code_in(self.text(), self.table()[0]@.2) } else { None }
    }

    /// The chapter a position is in: that of the last chunk starting at or
    /// before it, when it is a chapter whose number fits a `u16`.
    pub open spec fn chapter_at(&self, offset: usize) -> Option<u16> {
        match chunk_by(self.table(), offset, self.table().len() as int) {
            Some(k) => match self.table()[k]@.0 {
                Some(n) => if n <= u16::MAX { Some(n as u16) } else { None },
                None => None,
            },
            None => None,
        }
    }

    /// Whether `nodes` are what the session's verse index is built from:
    /// the whole document's nodes, each chunk from its own parse, or none
    /// where some chunk's spans do not fit in the document.
    pub open spec fn indexed_from(&self, nodes: Seq<Node>) -> bool {
        ||| views_of(nodes) == self.content_upto(self.table().len() as int)
        ||| nodes.len() == 0 && exists|k: int| 0 <= k < self.table().len()
                && !fits_all(#[trigger] self.chunk_tree(k), self.chunk_start(k))
    }

    fn chapter_line_of(&self, n: u16) -> (r: Option<ByteSpan>)
        requires
            self.wf(),
        ensures
            r == self.chapter_line(n),
    {
        let chunks = self.chunks();
        let mut k: usize = 0;
        while k < chunks.len()
            invariant
                k <= chunks@.len(),
                chunks@ == self.table(),
                chunk_numbered(self.table(), n as u32, 0) == chunk_numbered(self.table(), n as u32, k as int),
            decreases chunks.len() - k,
        {
            if chunks[k].number() == Some(n as u32) {
                let range = chunks[k].range();
                let bytes = self.source().as_bytes();
                let ghost b = self.bytes();
                let mut j = range.start;
                while j < range.end && j < bytes.len() && bytes[j] != 0x0A
                    invariant
                        bytes@ == b,
                        range.start <= j,
                        line_end(b, range.start as int, range.end as int) == line_end(b, j as int, range.end as int),
                    decreases range.end - j,
                {
                    j += 1;
                }
                let end = if j < range.end && j < bytes.len() { j + 1 } else { range.end };
                return Some(ByteSpan::new(range.start, end));
            }
            k += 1;
        }
        None
    }

    fn chapter_at_of(&self, offset: usize) -> (r: Option<u16>)
        requires
            self.wf(),
        ensures
            r == self.chapter_at(offset),
    {
        let chunks = self.chunks();
        let mut k: usize = chunks.len();
        while k > 0 && chunks[k - 1].range().start > offset
            invariant
                k <= chunks@.len(),
                chunks@ == self.table(),
                chunk_by(self.table(), offset, self.table().len() as int) == chunk_by(self.table(), offset, k as int),
            decreases k,
        {
            k -= 1;
        }
        if k == 0 {
            return None;
        }
        match chunks[k - 1].number() {
            Some(n) => if n <= 65535 { Some(n as u16) } else { None },
            None => None,
        }
    }

    /// The session's verse index, from its own parse.
    fn verse_index(&self) -> (r: (VerseIndex, Ghost<Seq<Node>>))
        requires
            self.wf(),
        ensures
            self.indexed_from(r.1@),
            r.0@ == index_walk(preorder_all(r.1@)).1,
    {
        let nodes = match self.content() {
            Some(c) => c,
            None => Vec::new(),
        };
        let index = VerseIndex::build(nodes.as_slice());
        (index, Ghost(nodes@))
    }

    /// Where a typed reference leads: `Unparseable` for text that is no
    /// reference, else as [`resolution_for`] says over the session's own
    /// verse index, book and chapter lines.
    pub fn resolve(&self, text: &str) -> (r: Resolution)
        requires
            self.wf(),
        ensures
            match parse_reference(text@) {
                None => r@ == ResolutionView::Unparseable,
                Some(asked) => exists|nodes: Seq<Node>| #![trigger preorder_all(nodes)]
                    self.indexed_from(nodes)
                    && r@ == resolution_for(asked, index_walk(preorder_all(nodes)).1, self.document_book(), self.chapter_line(asked.chapter)),
            },
    {
        let reference = match Reference::parse(text) {
            Some(r) => r,
            None => {
                return Resolution::Unparseable;
            },
        };
        let (index, Ghost(nodes)) = self.verse_index();
        let book = self.book_code();
        let start = self.chapter_line_of(reference.chapter);
        let r = match &book {
            Some(b) => resolve_with(&reference, &index, Some(b.as_str()), start),
            None => resolve_with(&reference, &index, None, start),
        };
        assert(preorder_all(nodes) == preorder_all(nodes));
        r
    }

    /// How a position reads as a reference, over the session's own verse
    /// index, book and chapters.
    pub fn reference_at(&self, offset: usize) -> (r: Option<String>)
        requires
            self.wf(),
        ensures
            exists|nodes: Seq<Node>| #![trigger preorder_all(nodes)]
                self.indexed_from(nodes)
                && opt_text(r) == reference_text(index_walk(preorder_all(nodes)).1, self.document_book(), offset, self.chapter_at(offset)),
    {
        let (index, Ghost(nodes)) = self.verse_index();
        let book = self.book_code();
        let chapter = self.chapter_at_of(offset);
        let r = match &book {
            Some(b) => reference_at(&index, Some(b.as_str()), offset, chapter),
            None => reference_at(&index, None, offset, chapter),
        };
        assert(preorder_all(nodes) == preorder_all(nodes));
        r
    }

    /// Every occurrence of `query`, in either spelling: the text and the
    /// query are compared in NFC, and the hits are whole characters of the
    /// source. Nothing for an empty query.
    pub fn find(&self, query: &str) -> (r: Vec<ByteSpan>)
        ensures
            query@.len() == 0 ==> r@.len() == 0,
            query@.len() > 0 ==> r@ == spans_from(index_of(self.text()), nfc(query@), 0),
    {
        let index = NormalizedIndex::build(self.source());
        index.find(query)
    }

    /// Every occurrence of `query` exactly as it is spelled, not
    /// overlapping, leftmost first. Nothing for an empty query.
    pub fn find_exact(&self, query: &str) -> (r: Vec<ByteSpan>)
        ensures
            r@ == exact_from(self.bytes(), query.spec_bytes(), 0),
    {
        let b = self.source().as_bytes();
        let q = query.as_bytes();
        let ghost bv = self.bytes();
        let ghost qv = query.spec_bytes();
        let mut out: Vec<ByteSpan> = Vec::new();
        if q.len() == 0 {
            return out;
        }
        let n = b.len();
        let mut i: usize = 0;
        assert(out@ + exact_from(bv, qv, 0) =~= exact_from(bv, qv, 0));
        while i < b.len() && q.len() <= b.len() - i
            invariant
                b@ == bv,
                q@ == qv,
                qv.len() > 0,
                n == bv.len(),
                i <= bv.len(),
                out@ + exact_from(bv, qv, i as int) == exact_from(bv, qv, 0),
            decreases bv.len() - i,
        {
            let mut k: usize = 0;
            while k < q.len() && b[i + k] == q[k]
                invariant
                    b@ == bv,
                    q@ == qv,
                    k <= qv.len(),
                    n == bv.len(),
                    i + qv.len() <= bv.len(),
                    forall|m: int| 0 <= m < k ==> bv[i + m] == qv[m],
                decreases qv.len() - k,
            {
                k += 1;
            }
            let ghost before = out@;
            if k == q.len() {
                assert(bv.subrange(i as int, i + qv.len()) =~= qv);
                out.push(ByteSpan::new(i, i + q.len()));
                assert(out@ + exact_from(bv, qv, i + qv.len()) =~= before + exact_from(bv, qv, i as int));
                i = i + q.len();
            } else {
                assert(bv.subrange(i as int, i + qv.len())[k as int] != qv[k as int]);
                assert(out@ + exact_from(bv, qv, i + 1) =~= before + exact_from(bv, qv, i as int));
                i = i + 1;
            }
        }
        assert(exact_from(bv, qv, i as int) =~= Seq::<ByteSpan>::empty());
        assert(out@ + Seq::<ByteSpan>::empty() =~= out@);
        out
    }

    /// Where a `\\` typed at byte `at` stands: whether only spaces and tabs
    /// precede it on its line, and the innermost character or note marker
    /// open there in the session's own parse.
    pub fn completion_context(&self, at: usize) -> (r: Context)
        requires
            self.wf(),
        ensures
            ({
                let b = self.bytes();
                let a = if at <= b.len() { at as int } else { b.len() as int };
                r.line_initial == blank_between(b, line_start(b, a), a)
            }),
            exists|nodes: Seq<Node>| #![trigger preorder_all(nodes)]
                self.indexed_from(nodes) && r@.inside == innermost_from(views_of(nodes), 0, at),
    {
        let bytes = self.source().as_bytes();
        let ghost b = self.bytes();
        let a = if at <= bytes.len() { at } else { bytes.len() };
        let mut s = a;
        while s > 0 && bytes[s - 1] != 0x0A
            invariant
                bytes@ == b,
                s <= a <= b.len(),
                line_start(b, a as int) == line_start(b, s as int),
            decreases s,
        {
            s -= 1;
        }
        let mut k = s;
        let mut blank = true;
        while k < a
            invariant
                bytes@ == b,
                s <= k <= a <= b.len(),
                blank == blank_between(b, s as int, k as int),
            decreases a - k,
        {
            if !(bytes[k] == 0x20 || bytes[k] == 0x09) {
                blank = false;
            }
            k += 1;
        }
        let nodes = match self.content() {
            Some(c) => c,
            None => Vec::new(),
        };
        let inside = innermost_of(&nodes, at);
        let r = Context { line_initial: blank, inside };
        assert(preorder_all(nodes@) == preorder_all(nodes@));
        r
    }
}

} // verus!
