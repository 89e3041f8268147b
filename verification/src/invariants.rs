//! What must hold for any input, including bytes nobody would call USFM:
//! every offset in bounds and on a UTF-8 boundary, every offset converting to
//! UTF-16 and back, and the chunks tiling the text.
//!
//! The checks return the first failure as a message rather than panicking,
//! so a failure names what went wrong. The checks on the parser's output
//! take that output as their arguments; the checks on the offset mapping and
//! on the chunk table need nothing else, and are proved to succeed on every
//! input.

use vstd::prelude::*;
use vstd::string::StringSliceAdditionalSpecFns;
use crate::fmt::{decimal, push_decimal, push_str};
use crate::diagnostic::{code_name, Diagnostic};
use crate::node::{nodes_of, preorder, Node};
use crate::verse::{entry_views, EntryView, VerseIndex};
use crate::char16::{boundaries_round_trip, char16_of, Char16, Utf16Mapper};
use crate::span::ByteSpan;
use crate::backend::diagnostics::converted;
use crate::backend::pipes::views_of;
use crate::backend::tree::content_of;
use crate::backend::upstream::{numbers_fit, usfm3_parse};
use crate::chunk::{fits_all, translated_all};
use crate::parsed::Document;
use crate::verse::{diag_views, index_walk, sort_by_start};
use crate::node::preorder_all;
use crate::session::{chapter_here, parts_of, vp_shape, vp_sizes, vp_starts, Session};
use crate::text::{at_boundary, is_boundary, lemma_boundary_after_ascii, lemma_str_boundary, lemma_units_in_mono, str_len, units_before};

verus! {

/// What is wrong with the span `start..end` of a text of these bytes, if
/// anything, in the words of a check on `what`.
pub open spec fn span_error(bytes: Seq<u8>, start: usize, end: usize, what: Seq<char>) -> Option<Seq<char>> {
    let head = what + " span "@ + decimal(start as nat) + ".."@ + decimal(end as nat);
    if start > end {
        Some(head + " is inverted"@)
    } else if end > bytes.len() {
        Some(head + " runs past "@ + decimal(bytes.len()) + " bytes"@)
    } else if !at_boundary(bytes, start as int) || !at_boundary(bytes, end as int) {
        Some(head + " does not fall on character boundaries"@)
    } else {
        None
    }
}

/// Checks that a span is in order, within the text, and on character
/// boundaries.
pub fn check_span(source: &str, start: usize, end: usize, what: &str) -> (r: Result<(), String>)
    ensures
        match r {
            Ok(()) => span_error(source.spec_bytes(), start, end, what@) is None,
            Err(m) => span_error(source.spec_bytes(), start, end, what@) == Some(m@),
        },
{
    let len = str_len(source);
    let failing = start > end || end > len || !is_boundary(source, start) || !is_boundary(source, end);
    if !failing {
        return Ok(());
    }
    let mut m = String::new();
    push_str(&mut m, what);
    push_str(&mut m, " span ");
    push_decimal(&mut m, start as u64);
    push_str(&mut m, "..");
    push_decimal(&mut m, end as u64);
    proof {
        reveal_strlit(" span ");
        reveal_strlit("..");
        reveal_strlit("");
    }
    if start > end {
        push_str(&mut m, " is inverted");
        proof {
            reveal_strlit(" is inverted");
        }
    } else if end > len {
        push_str(&mut m, " runs past ");
        push_decimal(&mut m, len as u64);
        push_str(&mut m, " bytes");
        proof {
            reveal_strlit(" runs past ");
            reveal_strlit(" bytes");
        }
    } else {
        push_str(&mut m, " does not fall on character boundaries");
        proof {
            reveal_strlit(" does not fall on character boundaries");
        }
    }
    Err(m)
}


/// Checks that every offset on a character boundary, the end included,
/// converts to UTF-16 and back, and that the conversion never goes
/// backwards. Every offset does: this never fails.
pub fn check_offsets(source: &str) -> (r: Result<(), String>)
    requires
        source.spec_bytes().len() < u32::MAX,
    ensures
        r is Ok,
{
    let ghost bytes = source.spec_bytes();
    let mapper = Utf16Mapper::new(source);
    let len = str_len(source);
    let mut previous: u32 = 0;
    let mut offset: usize = 0;
    while offset <= len
        invariant
            len == bytes.len(),
            len < u32::MAX,
            bytes == source.spec_bytes(),
            mapper.indexed() == bytes,
            offset <= len + 1,
            previous <= units_before(bytes, if offset <= len { offset as int } else { len as int }),
        decreases len + 1 - offset,
    {
        if is_boundary(source, offset) {
            let char16 = match mapper.to_char16(source, offset) {
                Some(c) => c,
                None => {
                    let mut m = String::new();
                    push_str(&mut m, "the mapper refused its own source");
                    return Err(m);
                },
            };
            proof {
                boundaries_round_trip(bytes, offset as int);
            }
            if char16.get() < previous {
                let mut m = String::new();
                push_str(&mut m, "to_char16 went backwards at byte ");
                push_decimal(&mut m, offset as u64);
                return Err(m);
            }
            previous = char16.get();
            if mapper.to_byte(source, char16) != Some(offset) {
                let mut m = String::new();
                push_str(&mut m, "byte ");
                push_decimal(&mut m, offset as u64);
                push_str(&mut m, " did not round-trip");
                return Err(m);
            }
        }
        proof {
            if offset < len {
                lemma_units_in_mono(bytes, 0, offset as int, offset + 1);
            }
        }
        offset += 1;
    }
    Ok(())
}


/// A byte right after a newline starts a character.
proof fn lemma_after_newline(s: &str, p: int)
    requires
        0 < p <= s.spec_bytes().len(),
        s.spec_bytes()[p - 1] == 10u8,
    ensures
        at_boundary(s.spec_bytes(), p),
{
    lemma_str_boundary(s, p - 1);
    lemma_boundary_after_ascii(s.spec_bytes(), p - 1);
    lemma_str_boundary(s, p);
}

/// Every chunk of a well-formed session starts and ends on a character
/// boundary.
proof fn lemma_chunk_boundaries(session: Session, source: &str, i: int)
    requires
        session.wf(),
        source@ == session.text(),
        0 <= i < session.table().len(),
    ensures
        at_boundary(source.spec_bytes(), session.table()[i]@.1),
        at_boundary(source.spec_bytes(), session.table()[i]@.2),
        session.table()[i]@.1 <= session.table()[i]@.2 <= source.spec_bytes().len(),
    decreases session.table().len() - i,
{
    let ps = parts_of(session.table(), 0);
    let x = source.spec_bytes();
    reveal(vp_shape);
    reveal(vp_sizes);
    reveal(vp_starts);
    assert(ps[i] == (session.table()[i]@.0, session.table()[i]@.1 - 0, session.table()[i]@.2 - 0));
    assert(at_boundary(x, 0)) by {
        if x.len() > 0 {
            lemma_str_boundary(source, 0);
            vstd::utf8::is_char_boundary_start_end_of_seq(x);
        }
    }
    if i > 0 {
        crate::session::lemma_chapter_here(x, ps[i].1);
        if ps[i].1 > 0 {
            lemma_after_newline(source, ps[i].1);
        }
    }
    if i + 1 < ps.len() {
        assert(ps[i + 1] == (session.table()[i + 1]@.0, session.table()[i + 1]@.1 - 0, session.table()[i + 1]@.2 - 0));
        lemma_chunk_boundaries(session, source, i + 1);
        assert(ps[i + 1].1 == ps[i].2);
    } else {
        assert(ps.last().2 == x.len());
    }
}


/// The first of a run of span checks that fails, with its message.
pub open spec fn first_failure(bytes: Seq<u8>, checks: Seq<(ByteSpan, Seq<char>)>) -> Option<Seq<char>>
    decreases checks.len(),
{
    if checks.len() == 0 {
        None
    } else {
        match span_error(bytes, checks[0].0.start, checks[0].0.end, checks[0].1) {
            Some(m) => Some(m),
            None => first_failure(bytes, checks.drop_first()),
        }
    }
}

/// The check of a span, if there is one, as belonging to `what`.
pub open spec fn check_of(span: Option<ByteSpan>, what: Seq<char>) -> Seq<(ByteSpan, Seq<char>)> {
    match span {
        Some(s) => seq![(s, what)],
        None => Seq::empty(),
    }
}

/// The checks of the chunks' top-level nodes from chunk `i` on, node by
/// node from node `j` of chunk `i`.
pub open spec fn chunk_checks_from(cs: Seq<Seq<Node>>, i: int, j: int) -> Seq<(ByteSpan, Seq<char>)>
    decreases cs.len() - i, if 0 <= i < cs.len() { cs[i].len() - j } else { 0 },
{
    if i < 0 || i >= cs.len() {
        Seq::empty()
    } else if j < 0 || j >= cs[i].len() {
        chunk_checks_from(cs, i + 1, 0)
    } else {
        check_of(cs[i][j].span, "chunked node"@) + chunk_checks_from(cs, i, j + 1)
    }
}

/// The checks of a node: its span, then its raw span.
pub open spec fn own_checks(n: Node) -> Seq<(ByteSpan, Seq<char>)> {
    check_of(n.span, "node"@) + check_of(n.raw, "raw"@)
}

/// The checks of every node of the trees from root `i` on, each tree walked
/// parents first from its node `k`.
pub open spec fn tree_checks_from(roots: Seq<Node>, i: int, k: int) -> Seq<(ByteSpan, Seq<char>)>
    decreases roots.len() - i, if 0 <= i < roots.len() { preorder(roots[i]).len() - k } else { 0 },
{
    if i < 0 || i >= roots.len() {
        Seq::empty()
    } else if k < 0 || k >= preorder(roots[i]).len() {
        tree_checks_from(roots, i + 1, 0)
    } else {
        own_checks(preorder(roots[i])[k]) + tree_checks_from(roots, i, k + 1)
    }
}

/// The checks of the diagnostics from `i` on, each named by its code.
pub open spec fn diagnostic_checks_from(ds: Seq<Diagnostic>, i: int) -> Seq<(ByteSpan, Seq<char>)>
    decreases ds.len() - i,
{
    if i < 0 || i >= ds.len() {
        Seq::empty()
    } else {
        seq![(ds[i].span, code_name(ds[i].code))] + diagnostic_checks_from(ds, i + 1)
    }
}

/// The checks of the verse entries from `i` on.
pub open spec fn verse_checks_from(es: Seq<EntryView>, i: int) -> Seq<(ByteSpan, Seq<char>)>
    decreases es.len() - i,
{
    if i < 0 || i >= es.len() {
        Seq::empty()
    } else {
        seq![(es[i].span, "verse"@)] + verse_checks_from(es, i + 1)
    }
}

/// Passing one check leaves the rest to decide.
proof fn lemma_pass(bytes: Seq<u8>, c: (ByteSpan, Seq<char>), rest: Seq<(ByteSpan, Seq<char>)>)
    requires
        span_error(bytes, c.0.start, c.0.end, c.1) is None,
    ensures
        first_failure(bytes, seq![c] + rest) == first_failure(bytes, rest),
{
    assert((seq![c] + rest).drop_first() =~= rest);
}

/// Failing one check decides.
proof fn lemma_fail(bytes: Seq<u8>, c: (ByteSpan, Seq<char>), rest: Seq<(ByteSpan, Seq<char>)>)
    requires
        span_error(bytes, c.0.start, c.0.end, c.1) is Some,
    ensures
        first_failure(bytes, seq![c] + rest) == span_error(bytes, c.0.start, c.0.end, c.1),
{
    assert((seq![c] + rest)[0] == c);
}

/// Checks one span, as the first of `rest`'s checks.
fn check_next(
    source: &str,
    span: &Option<ByteSpan>,
    what: &str,
    Ghost(all): Ghost<Seq<(ByteSpan, Seq<char>)>>,
    Ghost(rest): Ghost<Seq<(ByteSpan, Seq<char>)>>,
) -> (r: Result<(), String>)
    requires
        first_failure(source.spec_bytes(), all) == first_failure(source.spec_bytes(), check_of(*span, what@) + rest),
    ensures
        match r {
            Ok(()) => first_failure(source.spec_bytes(), all) == first_failure(source.spec_bytes(), rest),
            Err(m) => first_failure(source.spec_bytes(), all) == Some(m@),
        },
{
    match span {
        Some(s) => {
            let r = check_span(source, s.start, s.end, what);
            proof {
                let c = (*s, what@);
                assert(check_of(*span, what@) == seq![c]);
                if r is Ok {
                    lemma_pass(source.spec_bytes(), c, rest);
                } else {
                    lemma_fail(source.spec_bytes(), c, rest);
                }
            }
            r
        },
        None => {
            assert(check_of(*span, what@) + rest =~= rest);
            Ok(())
        },
    }
}


/// The lists of nodes held by a list of vectors.
pub open spec fn node_lists(vs: Seq<Vec<Node>>) -> Seq<Seq<Node>> {
    vs.map_values(|v: Vec<Node>| v@)
}

/// Checks a session: its chunks tile the text exactly, each starting where
/// the last ended and on character boundaries (which always holds), and the
/// spans of each chunk's top-level nodes, given in document coordinates, are
/// sound. Returns the first failure.
pub fn check_session(session: &Session, contents: &[Vec<Node>]) -> (r: Result<(), String>)
    requires
        session.wf(),
        contents@.len() == session.table().len(),
    ensures
        match r {
            Ok(()) => first_failure(session.bytes(), chunk_checks_from(node_lists(contents@), 0, 0)) is None,
            Err(m) => first_failure(session.bytes(), chunk_checks_from(node_lists(contents@), 0, 0)) == Some(m@),
        },
{
    let source = session.source();
    let len = str_len(source);
    let chunks = session.chunks();
    let mut expected: usize = 0;
    let mut i: usize = 0;
    proof {
        reveal(vp_shape);
    }
    assert(parts_of(session.table(), 0)[0] == (session.table()[0]@.0, session.table()[0]@.1 - 0, session.table()[0]@.2 - 0));
    while i < chunks.len()
        invariant
            session.wf(),
            source@ == session.text(),
            len == source.spec_bytes().len(),
            chunks@ == session.table(),
            i <= chunks@.len(),
            i < chunks@.len() ==> expected == chunks@[i as int]@.1,
            i == chunks@.len() ==> expected == len,
        decreases chunks.len() - i,
    {
        let range = chunks[i].range();
        proof {
            lemma_chunk_boundaries(*session, source, i as int);
            reveal(vp_shape);
            let ps = parts_of(session.table(), 0);
            if i + 1 < chunks@.len() {
                assert(ps[i + 1] == (session.table()[i + 1]@.0, session.table()[i + 1]@.1 - 0, session.table()[i + 1]@.2 - 0));
                assert(ps[i as int] == (session.table()[i as int]@.0, session.table()[i as int]@.1 - 0, session.table()[i as int]@.2 - 0));
                assert(ps[i + 1].1 == ps[i as int].2);
            } else {
                assert(ps.last() == (session.table()[i as int]@.0, session.table()[i as int]@.1 - 0, session.table()[i as int]@.2 - 0));
            }
        }
        if range.start != expected {
            let mut m = String::new();
            push_str(&mut m, "chunks do not tile: expected ");
            push_decimal(&mut m, expected as u64);
            push_str(&mut m, ", found ");
            push_decimal(&mut m, range.start as u64);
            return Err(m);
        }
        if !is_boundary(source, range.start) || !is_boundary(source, range.end) {
            let mut m = String::new();
            push_str(&mut m, "chunk boundary ByteSpan { start: ");
            push_decimal(&mut m, range.start as u64);
            push_str(&mut m, ", end: ");
            push_decimal(&mut m, range.end as u64);
            push_str(&mut m, " } falls inside a character");
            return Err(m);
        }
        expected = range.end;
        i += 1;
    }
    if expected != len {
        let mut m = String::new();
        push_str(&mut m, "chunks cover ");
        push_decimal(&mut m, expected as u64);
        push_str(&mut m, " of ");
        push_decimal(&mut m, len as u64);
        push_str(&mut m, " bytes");
        return Err(m);
    }
    let ghost cs = node_lists(contents@);
    let ghost all = chunk_checks_from(cs, 0, 0);
    let mut c: usize = 0;
    while c < contents.len()
        invariant
            c <= contents@.len(),
            source@ == session.text(),
            source.spec_bytes() == session.bytes(),
            cs == node_lists(contents@),
            all == chunk_checks_from(cs, 0, 0),
            first_failure(session.bytes(), all) == first_failure(session.bytes(), chunk_checks_from(cs, c as int, 0)),
        decreases contents.len() - c,
    {
        let nodes = &contents[c];
        let mut j: usize = 0;
        while j < nodes.len()
            invariant
                c < cs.len(),
                cs == node_lists(contents@),
                all == chunk_checks_from(cs, 0, 0),
                nodes@ == cs[c as int],
                j <= nodes@.len(),
                source.spec_bytes() == session.bytes(),
                first_failure(session.bytes(), all) == first_failure(session.bytes(), chunk_checks_from(cs, c as int, j as int)),
            decreases nodes.len() - j,
        {
            proof {
                reveal_strlit("chunked node");
            }
            let r = check_next(source, &nodes[j].span, "chunked node", Ghost(all), Ghost(chunk_checks_from(cs, c as int, j + 1)));
            match r {
                Err(m) => {
                    return Err(m);
                },
                Ok(()) => {},
            }
            j += 1;
        }
        c += 1;
    }
    Ok(())
}


/// Everything a document's check looks at, in order: every node of the
/// trees (span, then raw span), the diagnostics, the verse entries.
pub open spec fn document_checks(roots: Seq<Node>, ds: Seq<Diagnostic>, es: Seq<EntryView>) -> Seq<(ByteSpan, Seq<char>)> {
    tree_checks_from(roots, 0, 0) + diagnostic_checks_from(ds, 0) + verse_checks_from(es, 0)
}

/// Checks what the parser made of a document: every node's span and raw
/// span, every diagnostic's span (named by its code) and every verse entry's
/// span are in order, within the text and on character boundaries; then every
/// offset converts to UTF-16 and back, which always holds. Returns the first
/// failure.
pub fn check_document(source: &str, nodes: &[Node], diagnostics: &[Diagnostic], verses: &VerseIndex) -> (r: Result<(), String>)
    requires
        source.spec_bytes().len() < u32::MAX,
    ensures
        match r {
            Ok(()) => first_failure(source.spec_bytes(), document_checks(nodes@, diagnostics@, verses@)) is None,
            Err(m) => first_failure(source.spec_bytes(), document_checks(nodes@, diagnostics@, verses@)) == Some(m@),
        },
{
    let ghost bytes = source.spec_bytes();
    let ghost all = document_checks(nodes@, diagnostics@, verses@);
    let ghost tail = diagnostic_checks_from(diagnostics@, 0) + verse_checks_from(verses@, 0);
    assert(all =~= tree_checks_from(nodes@, 0, 0) + tail);
    proof {
        reveal_strlit("node");
        reveal_strlit("raw");
        reveal_strlit("verse");
    }
    let mut i: usize = 0;
    while i < nodes.len()
        invariant
            i <= nodes@.len(),
            bytes == source.spec_bytes(),
            all == document_checks(nodes@, diagnostics@, verses@),
            first_failure(bytes, all) == first_failure(bytes, tree_checks_from(nodes@, i as int, 0) + tail),
        decreases nodes.len() - i,
    {
        let walk = nodes[i].descendants();
        let mut k: usize = 0;
        while k < walk.len()
            invariant
                i < nodes@.len(),
                nodes_of(walk@) == preorder(nodes@[i as int]),
                k <= walk@.len(),
                bytes == source.spec_bytes(),
                all == document_checks(nodes@, diagnostics@, verses@),
                first_failure(bytes, all) == first_failure(bytes, tree_checks_from(nodes@, i as int, k as int) + tail),
            decreases walk.len() - k,
        {
            let n = walk[k];
            let ghost later = tree_checks_from(nodes@, i as int, k + 1) + tail;
            proof {
                assert(walk@.len() == preorder(nodes@[i as int]).len());
                assert(nodes_of(walk@)[k as int] == *n);
                assert(tree_checks_from(nodes@, i as int, k as int) + tail
                    =~= check_of(n.span, "node"@) + (check_of(n.raw, "raw"@) + later));
            }
            match check_next(source, &n.span, "node", Ghost(all), Ghost(check_of(n.raw, "raw"@) + later)) {
                Err(m) => {
                    return Err(m);
                },
                Ok(()) => {},
            }
            match check_next(source, &n.raw, "raw", Ghost(all), Ghost(later)) {
                Err(m) => {
                    return Err(m);
                },
                Ok(()) => {},
            }
            k += 1;
        }
        proof {
            assert(walk@.len() == preorder(nodes@[i as int]).len());
        }
        i += 1;
    }
    assert(tree_checks_from(nodes@, i as int, 0) + tail =~= tail);
    let mut d: usize = 0;
    while d < diagnostics.len()
        invariant
            d <= diagnostics@.len(),
            bytes == source.spec_bytes(),
            all == document_checks(nodes@, diagnostics@, verses@),
            first_failure(bytes, all) == first_failure(bytes, diagnostic_checks_from(diagnostics@, d as int) + verse_checks_from(verses@, 0)),
        decreases diagnostics.len() - d,
    {
        let diagnostic = &diagnostics[d];
        let span = Some(ByteSpan::new(diagnostic.span.start, diagnostic.span.end));
        let what = diagnostic.code.as_str();
        let ghost later = diagnostic_checks_from(diagnostics@, d + 1) + verse_checks_from(verses@, 0);
        assert(diagnostic_checks_from(diagnostics@, d as int) + verse_checks_from(verses@, 0) =~= check_of(span, what@) + later);
        match check_next(source, &span, what, Ghost(all), Ghost(later)) {
            Err(m) => {
                return Err(m);
            },
            Ok(()) => {},
        }
        d += 1;
    }
    assert(diagnostic_checks_from(diagnostics@, d as int) + verse_checks_from(verses@, 0) =~= verse_checks_from(verses@, 0));
    let entries = verses.entries();
    let mut e: usize = 0;
    while e < entries.len()
        invariant
            e <= entries@.len(),
            entry_views(entries@) == verses@,
            bytes == source.spec_bytes(),
            all == document_checks(nodes@, diagnostics@, verses@),
            first_failure(bytes, all) == first_failure(bytes, verse_checks_from(verses@, e as int)),
        decreases entries.len() - e,
    {
        let span = Some(ByteSpan::new(entries[e].span.start, entries[e].span.end));
        let ghost later = verse_checks_from(verses@, e + 1);
        assert(verses@[e as int].span == entries@[e as int].span);
        assert(verse_checks_from(verses@, e as int) =~= check_of(span, "verse"@) + later);
        match check_next(source, &span, "verse", Ghost(all), Ghost(later)) {
            Err(m) => {
                return Err(m);
            },
            Ok(()) => {},
        }
        e += 1;
    }
    let offsets = check_offsets(source);
    assert(offsets is Ok);
    Ok(())
}

/// Checks every invariant of a document and of a session over the same
/// text, given what the parser made of each: the document's first, then the
/// session's. Returns the first failure.
pub fn check(
    source: &str,
    nodes: &[Node],
    diagnostics: &[Diagnostic],
    verses: &VerseIndex,
    session: &Session,
    contents: &[Vec<Node>],
) -> (r: Result<(), String>)
    requires
        source.spec_bytes().len() < u32::MAX,
        session.wf(),
        session.text() == source@,
        contents@.len() == session.table().len(),
    ensures
        match r {
            Ok(()) => first_failure(source.spec_bytes(), document_checks(nodes@, diagnostics@, verses@)) is None
                && first_failure(session.bytes(), chunk_checks_from(node_lists(contents@), 0, 0)) is None,
            Err(m) => first_failure(source.spec_bytes(), document_checks(nodes@, diagnostics@, verses@)) == Some(m@)
                || (first_failure(source.spec_bytes(), document_checks(nodes@, diagnostics@, verses@)) is None
                    && first_failure(session.bytes(), chunk_checks_from(node_lists(contents@), 0, 0)) == Some(m@)),
        },
{
    match check_document(source, nodes, diagnostics, verses) {
        Err(m) => {
            return Err(m);
        },
        Ok(()) => {},
    }
    check_session(session, contents)
}


/// What [`check`] says of a document's parse and a session's chunk trees:
/// the first failure among the document's checks, else among the session's.
pub open spec fn verdict(bytes: Seq<u8>, roots: Seq<Node>, ds: Seq<Diagnostic>, contents: Seq<Vec<Node>>) -> Option<Seq<char>> {
    match first_failure(bytes, document_checks(roots, ds, index_walk(preorder_all(roots)).1)) {
        Some(m) => Some(m),
        None => first_failure(bytes, chunk_checks_from(node_lists(contents), 0, 0)),
    }
}

/// What a chunk that cannot be placed in its document is reported as.
pub open spec fn unplaceable_message(k: nat) -> Seq<char> {
    "chunk "@ + decimal(k) + " does not fit in the document"@
}

/// Checks every invariant of `source`: of its parse as a whole document,
/// and of a session over it with each chunk parsed on its own.
pub fn check_source(source: &str) -> (r: Result<(), String>)
    requires
        source.spec_bytes().len() < u32::MAX,
    ensures
        exists|roots: Seq<Node>, ds: Seq<Diagnostic>, session: Session, contents: Seq<Vec<Node>>|
            #![trigger views_of(roots), diag_views(ds), session.table(), node_lists(contents)]
        {
            &&& views_of(roots) == content_of(usfm3_parse(source@).0, source.spec_bytes())
            &&& diag_views(ds) == (if numbers_fit(source.spec_bytes()) {
                sort_by_start(converted(usfm3_parse(source@).1))
            } else {
                Seq::empty()
            })
            &&& session.wf()
            &&& session.text() == source@
            &&& contents.len() <= session.table().len()
            &&& forall|k: int| 0 <= k < contents.len() ==> views_of(#[trigger] contents[k]@)
                == translated_all(session.chunk_tree(k), session.chunk_start(k))
            &&& if contents.len() < session.table().len() {
                &&& !fits_all(session.chunk_tree(contents.len() as int), session.chunk_start(contents.len() as int))
                &&& r == Err::<(), String>(r->Err_0)
                &&& r->Err_0@ == unplaceable_message(contents.len())
            } else {
                match r {
                    Ok(()) => verdict(source.spec_bytes(), roots, ds, contents) is None,
                    Err(m) => verdict(source.spec_bytes(), roots, ds, contents) == Some(m@),
                }
            }
        },
{
    let document = Document::parse(source);
    let (roots, ds) = document.into_parts();
    let verses = VerseIndex::build(roots.as_slice());
    let session = Session::new(source);
    let n = session.chunks().len();
    let mut contents: Vec<Vec<Node>> = Vec::new();
    let mut c: usize = 0;
    while c < n
        invariant
            session.wf(),
            session.text() == source@,
            views_of(roots@) == content_of(usfm3_parse(source@).0, source.spec_bytes()),
            diag_views(ds@) == (if numbers_fit(source.spec_bytes()) {
                sort_by_start(converted(usfm3_parse(source@).1))
            } else {
                Seq::empty()
            }),
            n == session.table().len(),
            c <= n,
            contents@.len() == c,
            forall|k: int| 0 <= k < c ==> views_of(#[trigger] contents@[k]@)
                == translated_all(session.chunk_tree(k), session.chunk_start(k)),
        decreases n - c,
    {
        match session.chunk_content(c) {
            Some(v) => {
                contents.push(v);
            },
            None => {
                let mut m = String::new();
                push_str(&mut m, "chunk ");
                push_decimal(&mut m, c as u64);
                push_str(&mut m, " does not fit in the document");
                proof {
                    reveal_strlit("chunk ");
                    reveal_strlit(" does not fit in the document");
                    assert(Seq::<char>::empty() + "chunk "@ =~= "chunk "@);
                }
                let r = Err(m);
                assert(node_lists(contents@) == node_lists(contents@));
                return r;
            },
        }
        c += 1;
    }
    let r = check(source, roots.as_slice(), ds.as_slice(), &verses, &session, contents.as_slice());
    assert(node_lists(contents@) == node_lists(contents@));
    r
}
} // verus!
