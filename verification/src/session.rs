//! The incremental session: reparse a chapter, not a book.
//!
//! `\c` at line start is a hard synchronization point, so a document
//! partitions there into independently parseable chunks, plus a header chunk
//! for everything before the first chapter. An edit rebuilds the chunks it
//! can change the shape of and only moves the rest. The invariant that
//! makes this safe: the chunk table is always exactly the partition a fresh
//! split of the current text gives.

use vstd::prelude::*;
use vstd::string::StringSliceAdditionalSpecFns;
use crate::diagnostic::{Diagnostic, DiagnosticCode, DiagnosticView, Severity};
use crate::verse::diag_views;
use crate::fmt::{decimal, push_decimal, push_str};
use crate::severity::{DiagnosticConfig, version_of};
use crate::text::{at_boundary, is_boundary, lemma_encode_concat, lemma_str_boundary};
use vstd::slice::slice_subrange;
use crate::version::Version;
use vstd::utf8::encode_utf8;
use crate::span::ByteSpan;

verus! {

/// Where the line holding byte `p` ends: just past its `\n`, or at the end.
pub open spec fn line_end_at(x: Seq<u8>, p: int) -> int
    decreases x.len() - p,
{
    if p < 0 || p >= x.len() {
        x.len() as int
    } else if x[p] == 10u8 {
        p + 1
    } else {
        line_end_at(x, p + 1)
    }
}

/// The line starting at `p`, with its `\n` if it has one.
pub open spec fn line_text(x: Seq<u8>, p: int) -> Seq<u8> {
    x.subrange(p, line_end_at(x, p))
}

/// Whether a line begins at `p`.
pub open spec fn is_line_start(x: Seq<u8>, p: int) -> bool {
    p == 0 || (0 < p <= x.len() && x[p - 1] == 10u8)
}

/// Where a run of spaces and tabs from `i` ends.
pub open spec fn blanks_end(l: Seq<u8>, i: int) -> int
    decreases l.len() - i,
{
    if 0 <= i < l.len() && (l[i] == 32u8 || l[i] == 9u8) {
        blanks_end(l, i + 1)
    } else {
        i
    }
}

/// Where a run of ASCII digits from `i` ends.
pub open spec fn digits_end(l: Seq<u8>, i: int) -> int
    decreases l.len() - i,
{
    if 0 <= i < l.len() && 48u8 <= l[i] <= 57u8 {
        digits_end(l, i + 1)
    } else {
        i
    }
}

/// The value of a run of ASCII digits.
pub open spec fn digit_bytes_value(ds: Seq<u8>) -> nat
    decreases ds.len(),
{
    if ds.len() == 0 {
        0
    } else {
        digit_bytes_value(ds.drop_last()) * 10 + (ds.last() - 48) as nat
    }
}

/// What `u32::from_str` gives for a run of ASCII digits.
pub open spec fn digits_u32(ds: Seq<u8>) -> Option<u32> {
    if ds.len() > 0 && digit_bytes_value(ds) <= u32::MAX {
        Some(digit_bytes_value(ds) as u32)
    } else {
        None
    }
}

/// Whether a line is a chapter marker, and its number. The marker must be
/// exactly `\c`, followed by the end, a space, a tab, `\r` or `\n`: `\cl`,
/// `\cp` and `\ca` are not chapters. The number is the ASCII digits after
/// any spaces and tabs; an unnumbered or unparseable `\c` is still a chapter.
pub open spec fn chapter_of_line(l: Seq<u8>) -> Option<Option<u32>> {
    if l.len() >= 2 && l[0] == 92u8 && l[1] == 99u8
        && (l.len() == 2 || l[2] == 32u8 || l[2] == 9u8 || l[2] == 13u8 || l[2] == 10u8) {
        let q = blanks_end(l, 2);
        Some(digits_u32(l.subrange(q, digits_end(l, q))))
    } else {
        None
    }
}

/// The chapter marker beginning at byte `p`, if a line starts there with one.
#[verifier::opaque]
pub open spec fn chapter_here(x: Seq<u8>, p: int) -> Option<Option<u32>> {
    if 0 <= p < x.len() && is_line_start(x, p) {
        chapter_of_line(line_text(x, p))
    } else {
        None
    }
}

/// Only a line start inside the text can hold a chapter marker; one that
/// does holds what its line says.
pub proof fn lemma_chapter_here(x: Seq<u8>, p: int)
    ensures
        (p < 0 || p >= x.len() || !is_line_start(x, p)) ==> chapter_here(x, p) is None,
        (0 <= p < x.len() && is_line_start(x, p)) ==> chapter_here(x, p) == chapter_of_line(line_text(x, p)),
{
    reveal(chapter_here);
}

/// A chunk as contracts speak of it: its chapter number, start and end.
pub type Part = (Option<u32>, int, int);

/// Whether `cs` partitions `x` at its chapter markers: the chunks tile the
/// text in order, none empty unless the text is; every chunk after the first
/// starts at a chapter marker and carries its number; the first carries the
/// number of a marker at byte 0, if there is one; and no marker falls
/// strictly inside a chunk.
pub open spec fn valid_partition(cs: Seq<Part>, x: Seq<u8>) -> bool {
    &&& vp_shape(cs, x)
    &&& vp_sizes(cs)
    &&& vp_starts(cs, x)
    &&& vp_inside(cs, x)
}

/// The chunks tile the text, in order.
#[verifier::opaque]
pub open spec fn vp_shape(cs: Seq<Part>, x: Seq<u8>) -> bool {
    &&& cs.len() > 0
    &&& cs[0].1 == 0
    &&& cs.last().2 == x.len()
    &&& forall|i: int| 1 <= i < cs.len() ==> #[trigger] cs[i].1 == cs[i - 1].2
}

/// No chunk is empty, unless it is the only one.
#[verifier::opaque]
pub open spec fn vp_sizes(cs: Seq<Part>) -> bool {
    forall|i: int| 0 <= i < cs.len() ==> #[trigger] cs[i].1 < cs[i].2 || cs.len() == 1
}

/// Every chunk after the first starts at a chapter marker and carries its
/// number; the first carries the number of a marker at byte 0, if any.
#[verifier::opaque]
pub open spec fn vp_starts(cs: Seq<Part>, x: Seq<u8>) -> bool {
    &&& forall|i: int| 1 <= i < cs.len() ==> chapter_here(x, #[trigger] cs[i].1) == Some(cs[i].0)
    &&& cs.len() > 0 ==> cs[0].0 == match chapter_here(x, 0) {
        Some(n) => n,
        None => None,
    }
}

/// No chapter marker falls strictly inside a chunk.
#[verifier::opaque]
pub open spec fn vp_inside(cs: Seq<Part>, x: Seq<u8>) -> bool {
    forall|i: int, p: int|
        #![trigger cs[i], chapter_here(x, p)]
        0 <= i < cs.len() && cs[i].1 < p < cs[i].2 ==> chapter_here(x, p) is None
}

/// A line ends past its start and within the text, and holds no `\n`
/// before its last byte.
pub proof fn lemma_line_end(x: Seq<u8>, p: int)
    requires
        0 <= p < x.len(),
    ensures
        p < line_end_at(x, p) <= x.len(),
        forall|k: int| p <= k < line_end_at(x, p) - 1 ==> #[trigger] x[k] != 10u8,
        line_end_at(x, p) < x.len() ==> x[line_end_at(x, p) - 1] == 10u8,
        line_end_at(x, p) == x.len() ==> (x[x.len() - 1] == 10u8 || forall|k: int| p <= k < x.len() ==> #[trigger] x[k] != 10u8),
    decreases x.len() - p,
{
    if x[p] != 10u8 {
        if p + 1 < x.len() {
            lemma_line_end(x, p + 1);
        } else {
            assert(line_end_at(x, p + 1) == x.len());
        }
    }
}

/// No line starts strictly inside a line.
pub proof fn lemma_inside_line(x: Seq<u8>, p: int, q: int)
    requires
        0 <= p < q < line_end_at(x, p),
        p < x.len(),
    ensures
        !is_line_start(x, q),
{
    lemma_line_end(x, p);
    assert(x[q - 1] != 10u8);
}

/// Where the line holding the byte before `o` begins: just past the last
/// `\n` before `o`, or 0.
pub open spec fn line_start_at(x: Seq<u8>, o: int) -> int
    decreases o,
{
    if o <= 0 || o > x.len() {
        0
    } else if x[o - 1] == 10u8 {
        o
    } else {
        line_start_at(x, o - 1)
    }
}

/// Like [`valid_partition`] while the text is read up to the last chunk's
/// end: that chunk may still be empty.
pub open spec fn partial_partition(cs: Seq<Part>, x: Seq<u8>) -> bool {
    &&& cs.len() > 0
    &&& cs[0].1 == 0
    &&& forall|i: int| 1 <= i < cs.len() ==> #[trigger] cs[i].1 == cs[i - 1].2
    &&& forall|i: int| 0 <= i < cs.len() - 1 ==> #[trigger] cs[i].1 < cs[i].2
    &&& cs.last().1 <= cs.last().2
    &&& forall|i: int| 1 <= i < cs.len() ==> chapter_here(x, #[trigger] cs[i].1) == Some(cs[i].0)
    &&& (cs.len() > 1 || cs[0].2 > 0) ==> cs[0].0 == match chapter_here(x, 0) {
        Some(n) => n,
        None => None,
    }
    &&& forall|i: int, p: int|
        #![trigger cs[i], chapter_here(x, p)]
        0 <= i < cs.len() && cs[i].1 < p < cs[i].2 ==> chapter_here(x, p) is None
}

/// Where the line starting at `p` ends.
fn line_end(x: &[u8], p: usize) -> (r: usize)
    requires
        p <= x@.len(),
    ensures
        r == line_end_at(x@, p as int),
{
    let mut i = p;
    while i < x.len() && x[i] != 10u8
        invariant
            p <= i <= x@.len(),
            line_end_at(x@, p as int) == line_end_at(x@, i as int),
        decreases x.len() - i,
    {
        i += 1;
    }
    if i < x.len() {
        i + 1
    } else {
        i
    }
}

/// Where the line holding the byte before `offset` begins.
fn line_start(x: &[u8], offset: usize) -> (r: usize)
    requires
        offset <= x@.len(),
    ensures
        r == line_start_at(x@, offset as int),
        r <= offset,
{
    let mut o = offset;
    while o > 0 && x[o - 1] != 10u8
        invariant
            o <= offset <= x@.len(),
            line_start_at(x@, offset as int) == line_start_at(x@, o as int),
        decreases o,
    {
        o -= 1;
    }
    o
}

/// The chapter number of the line `x[p..e)`, if it is a chapter line.
fn chapter_number(x: &[u8], p: usize, e: usize) -> (r: Option<Option<u32>>)
    requires
        p <= e <= x@.len(),
    ensures
        r == chapter_of_line(x@.subrange(p as int, e as int)),
{
    let ghost l = x@.subrange(p as int, e as int);
    if e - p < 2 || x[p] != 92u8 || x[p + 1] != 99u8 {
        return None;
    }
    if e - p > 2 {
        let after = x[p + 2];
        if !(after == 32u8 || after == 9u8 || after == 13u8 || after == 10u8) {
            assert(l[2] == after);
            return None;
        }
    }
    let mut q = p + 2;
    while q < e && (x[q] == 32u8 || x[q] == 9u8)
        invariant
            p + 2 <= q <= e <= x@.len(),
            l == x@.subrange(p as int, e as int),
            blanks_end(l, 2) == blanks_end(l, q - p),
        decreases e - q,
    {
        assert(l[q - p] == x@[q as int]);
        q += 1;
    }
    proof {
        if q < e {
            assert(l[q - p] == x@[q as int]);
        }
    }
    let mut d = q;
    let mut value: u64 = 0;
    let mut overflow = false;
    assert(l.subrange(q - p, q - p) == Seq::<u8>::empty());
    while d < e && 48u8 <= x[d] && x[d] <= 57u8
        invariant
            q <= d <= e <= x@.len(),
            p + 2 <= q,
            l == x@.subrange(p as int, e as int),
            blanks_end(l, 2) == q - p,
            digits_end(l, q - p) == digits_end(l, d - p),
            forall|k: int| q <= k < d ==> 48u8 <= #[trigger] x@[k] <= 57u8,
            !overflow ==> value == digit_bytes_value(l.subrange(q - p, d - p)),
            !overflow ==> value <= u32::MAX,
            overflow ==> digit_bytes_value(l.subrange(q - p, d - p)) > u32::MAX,
        decreases e - d,
    {
        assert(l[d - p] == x@[d as int]);
        let ghost before = l.subrange(q - p, d - p);
        let ghost after = l.subrange(q - p, d + 1 - p);
        assert(after.drop_last() == before);
        assert(after.last() == x@[d as int]);
        if !overflow {
            let next = value * 10 + (x[d] - 48) as u64;
            if next > 0xFFFF_FFFF {
                overflow = true;
            } else {
                value = next;
            }
        }
        proof {
            if overflow {
                assert(digit_bytes_value(after) >= digit_bytes_value(before) * 10);
            }
        }
        d += 1;
    }
    proof {
        if d < e {
            assert(l[d - p] == x@[d as int]);
        }
    }
    if d == q || overflow {
        Some(None)
    } else {
        Some(Some(value as u32))
    }
}

/// A chapter's worth of document, parsed independently.
#[derive(Debug, Clone, Copy)]
pub struct Chunk {
    number: Option<u32>,
    start: usize,
    end: usize,
    rev: u64,
}

impl View for Chunk {
    type V = Part;

    closed spec fn view(&self) -> Part {
        (self.number, self.start as int, self.end as int)
    }
}

/// The parts of chunks, relative to `base`.
pub open spec fn parts_of(cs: Seq<Chunk>, base: int) -> Seq<Part> {
    cs.map_values(|c: Chunk| (c@.0, c@.1 - base, c@.2 - base))
}

impl Chunk {
    /// The chapter number, or `None` for the header chunk before the first
    /// chapter (or a chapter whose number does not parse).
    pub fn number(&self) -> (n: Option<u32>)
        ensures
            n == self@.0,
    {
        self.number
    }

    /// Where this chunk sits in the document.
    pub fn range(&self) -> (r: ByteSpan)
        ensures
            r.start == self@.1 && r.end == self@.2,
    {
        ByteSpan::new(self.start, self.end)
    }

    /// The revision at which this chunk was last rebuilt.
    pub fn rev(&self) -> (r: u64)
        ensures
            r == self.rev_spec(),
    {
        self.rev
    }

    pub closed spec fn rev_spec(&self) -> u64 {
        self.rev
    }
}

/// A chunk of `[start, end)` shifted by `base`.
fn make_chunk(number: Option<u32>, start: usize, end: usize, base: usize, rev: u64) -> (c: Chunk)
    requires
        base + end <= usize::MAX,
        start <= end,
    ensures
        c@ == (number, (base + start) as int, (base + end) as int),
        c.rev_spec() == rev,
{
    Chunk { number, start: base + start, end: base + end, rev }
}

/// Splits `text` at line-initial `\c`, returning chunks offset by `base`.
fn split(text: &[u8], base: usize, rev: u64) -> (r: Vec<Chunk>)
    requires
        base + text@.len() <= usize::MAX,
    ensures
        valid_partition(parts_of(r@, base as int), text@),
        forall|i: int| 0 <= i < r@.len() ==> #[trigger] r@[i].rev_spec() == rev,
{
    let n = text.len();
    let ghost x = text@;
    let mut chunks: Vec<Chunk> = Vec::new();
    let mut open_number: Option<u32> = None;
    let mut open_start: usize = 0;
    let mut line: usize = 0;
    while line < n
        invariant
            n == x.len(),
            x == text@,
            base + n <= usize::MAX,
            open_start <= line <= n,
            line == n || is_line_start(x, line as int),
            partial_partition(parts_of(chunks@, base as int).push((open_number, open_start as int, line as int)), x),
            open_start < line || line == 0,
            chunks@.len() == 0 ==> open_start == 0,
            line == 0 ==> chunks@.len() == 0 && open_number is None,
            forall|i: int| 0 <= i < chunks@.len() ==> #[trigger] chunks@[i].rev_spec() == rev,
        decreases n - line,
    {
        let ghost p_old = parts_of(chunks@, base as int).push((open_number, open_start as int, line as int));
        let e = line_end(text, line);
        proof {
            lemma_line_end(x, line as int);
            assert(forall|q: int| line < q < e ==> !is_line_start(x, q)) by {
                assert forall|q: int| line < q < e implies !is_line_start(x, q) by {
                    lemma_inside_line(x, line as int, q);
                }
            }
        }
        let found = chapter_number(text, line, e);
        proof {
            lemma_chapter_here(x, line as int);
            assert forall|q: int| line < q < e implies chapter_here(x, q) is None by {
                lemma_chapter_here(x, q);
            }
        }
        assert(found == chapter_here(x, line as int));
        match found {
            Some(num) => {
                if line > 0 {
                    let c = make_chunk(open_number, open_start, line, base, rev);
                    let ghost before = chunks@;
                    chunks.push(c);
                    assert(parts_of(chunks@, base as int) =~= parts_of(before, base as int).push((open_number, open_start as int, line as int)));
                    open_number = num;
                    open_start = line;
                } else {
                    open_number = num;
                }
            },
            None => {},
        }
        let ghost p_mid = parts_of(chunks@, base as int).push((open_number, open_start as int, line as int));
        assert(partial_partition(p_mid, x)) by {
            if found is Some && line > 0 {
                assert(p_mid.len() == p_old.len() + 1);
                assert forall|i: int| 1 <= i < p_mid.len() implies #[trigger] p_mid[i].1 == p_mid[i - 1].2 by {
                    if i < p_old.len() {
                        assert(p_mid[i] == p_old[i]);
                        assert(p_mid[i - 1] == p_old[i - 1]);
                    }
                }
                assert forall|i: int| 0 <= i < p_mid.len() - 1 implies #[trigger] p_mid[i].1 < p_mid[i].2 by {
                    if i < p_old.len() - 1 {
                        assert(p_mid[i] == p_old[i]);
                    }
                }
                assert forall|i: int| 1 <= i < p_mid.len() implies chapter_here(x, #[trigger] p_mid[i].1) == Some(p_mid[i].0) by {
                    if i < p_old.len() {
                        assert(p_mid[i] == p_old[i]);
                    }
                }
                assert(p_mid[0] == p_old[0] || p_old.len() == 1);
                assert forall|i: int, p: int|
                    #![trigger p_mid[i], chapter_here(x, p)]
                    0 <= i < p_mid.len() && p_mid[i].1 < p < p_mid[i].2 implies chapter_here(x, p) is None by {
                    if i < p_old.len() {
                        assert(p_mid[i] == p_old[i]);
                        assert(p_old[i].1 < p < p_old[i].2);
                    }
                }
            } else if found is Some {
                assert(p_mid.len() == 1);
            } else {
                assert(p_mid.len() == p_old.len());
                assert forall|i: int| 0 <= i < p_mid.len() - 1 implies #[trigger] p_mid[i] == p_old[i] by {}
            }
        }
        let ghost p_new = parts_of(chunks@, base as int).push((open_number, open_start as int, e as int));
        assert(partial_partition(p_new, x)) by {
            assert(p_new.len() == p_mid.len());
            assert forall|i: int| 0 <= i < p_new.len() - 1 implies #[trigger] p_new[i] == p_mid[i] by {}
            assert forall|i: int| 1 <= i < p_new.len() implies #[trigger] p_new[i].1 == p_new[i - 1].2 by {
                assert(p_new[i].1 == p_mid[i].1);
                assert(p_mid[i].1 == p_mid[i - 1].2);
            }
            assert forall|i: int, p: int|
                #![trigger p_new[i], chapter_here(x, p)]
                0 <= i < p_new.len() && p_new[i].1 < p < p_new[i].2 implies chapter_here(x, p) is None by {
                if i < p_new.len() - 1 {
                    assert(p_mid[i].1 < p < p_mid[i].2);
                } else if p < line {
                    assert(p_mid[i].1 < p < p_mid[i].2);
                } else if p == line {
                    assert(found is None || open_start == line);
                } else {
                    assert(!is_line_start(x, p));
                    lemma_chapter_here(x, p);
                }
            }
            assert(p_new[0].0 == p_mid[0].0);
            if p_new.len() == 1 && line == 0 {
                assert(found == chapter_here(x, 0));
            }
            assert forall|i: int| 1 <= i < p_new.len() implies chapter_here(x, #[trigger] p_new[i].1) == Some(p_new[i].0) by {
                assert(p_new[i].1 == p_mid[i].1 && p_new[i].0 == p_mid[i].0);
            }
        }
        line = e;
    }
    let c = make_chunk(open_number, open_start, n, base, rev);
    let ghost before = chunks@;
    chunks.push(c);
    let ghost fin = parts_of(chunks@, base as int);
    assert(fin =~= parts_of(before, base as int).push((open_number, open_start as int, n as int)));
    assert(valid_partition(fin, x)) by {
        reveal(vp_shape);
        reveal(vp_sizes);
        reveal(vp_starts);
        reveal(vp_inside);
        if n == 0 {
            assert(fin.len() == 1);
            lemma_chapter_here(x, 0);
        }
        assert forall|i: int| 0 <= i < fin.len() implies #[trigger] fin[i].1 < fin[i].2 || fin.len() == 1 by {
            if i < fin.len() - 1 {
            } else if n > 0 {
                assert(open_start < n);
            }
        }
    }
    chunks
}

/// Dropping the first `k` bytes moves every line end back by `k`.
pub proof fn lemma_line_end_skip(x: Seq<u8>, k: int, p: int)
    requires
        0 <= k <= p <= x.len(),
    ensures
        line_end_at(x.skip(k), p - k) == line_end_at(x, p) - k,
    decreases x.len() - p,
{
    if p < x.len() {
        assert(x.skip(k)[p - k] == x[p]);
        if x[p] != 10u8 {
            lemma_line_end_skip(x, k, p + 1);
        }
    }
}

/// Cutting the text just after a `\n` (or at its end) leaves the lines
/// before the cut as they were.
pub proof fn lemma_line_end_take(x: Seq<u8>, e: int, p: int)
    requires
        0 <= p < e <= x.len(),
        e == x.len() || x[e - 1] == 10u8,
    ensures
        line_end_at(x.take(e), p) == line_end_at(x, p),
        line_end_at(x, p) <= e,
    decreases e - p,
{
    lemma_line_end(x, p);
    assert(x.take(e)[p] == x[p]);
    if x[p] != 10u8 {
        if p + 1 < e {
            lemma_line_end_take(x, e, p + 1);
        } else {
            assert(x.take(e) == x);
        }
    }
}

/// A chapter marker before a cut after a `\n` reads the same in the text
/// cut there.
pub proof fn lemma_chapter_take(x: Seq<u8>, e: int, p: int)
    requires
        0 <= p < e <= x.len(),
        e == x.len() || x[e - 1] == 10u8,
    ensures
        chapter_here(x, p) == chapter_here(x.take(e), p),
{
    reveal(chapter_here);
    lemma_line_end_take(x, e, p);
    lemma_line_end(x, p);
    let le = line_end_at(x, p);
    assert(line_end_at(x.take(e), p) == le);
    assert forall|i: int| 0 <= i < le - p implies #[trigger] x.take(e).subrange(p, le)[i] == x.subrange(p, le)[i] by {
        assert(x.take(e)[p + i] == x[p + i]);
    }
    assert(x.take(e).subrange(p, le) =~= x.subrange(p, le));
    if p > 0 {
        assert(x.take(e)[p - 1] == x[p - 1]);
    }
}

/// A chapter marker after a line start reads the same in the text from
/// that line start on.
pub proof fn lemma_chapter_skip(x: Seq<u8>, k: int, p: int)
    requires
        0 <= k <= p < x.len(),
        is_line_start(x, k),
    ensures
        chapter_here(x, p) == chapter_here(x.skip(k), p - k),
{
    reveal(chapter_here);
    lemma_line_end_skip(x, k, p);
    lemma_line_end(x, p);
    assert(line_text(x.skip(k), p - k) =~= line_text(x, p));
    if p > k {
        assert(x.skip(k)[p - k - 1] == x[p - 1]);
    }
}

/// The chunk that ends first ends where the other does: no chapter marker
/// lies inside a chunk, and every chunk but the last ends at one.
proof fn lemma_same_end(c1: Seq<Part>, c2: Seq<Part>, x: Seq<u8>, i: int)
    requires
        valid_partition(c1, x),
        valid_partition(c2, x),
        0 <= i < c1.len(),
        i < c2.len(),
        c1[i].1 == c2[i].1,
    ensures
        c1[i].2 == c2[i].2,
{
    reveal(vp_shape);
    reveal(vp_sizes);
    reveal(vp_starts);
    reveal(vp_inside);
    lemma_parts_within(c1, x, i);
    lemma_parts_within(c2, x, i);
    if c1[i].2 < c2[i].2 {
        assert(i + 1 < c1.len());
        assert(c1[i + 1].1 == c1[i].2);
        assert(chapter_here(x, c1[i + 1].1) is Some);
        assert(c2[i].1 < c1[i].2 < c2[i].2);
        assert(chapter_here(x, c1[i].2) is None);
    } else if c2[i].2 < c1[i].2 {
        assert(i + 1 < c2.len());
        assert(c2[i + 1].1 == c2[i].2);
        assert(chapter_here(x, c2[i + 1].1) is Some);
        assert(c1[i].1 < c2[i].2 < c1[i].2);
        assert(chapter_here(x, c2[i].2) is None);
    }
}

proof fn lemma_same_upto(c1: Seq<Part>, c2: Seq<Part>, x: Seq<u8>, i: int)
    requires
        valid_partition(c1, x),
        valid_partition(c2, x),
        0 <= i < c1.len(),
        i < c2.len(),
    ensures
        forall|j: int| 0 <= j <= i ==> #[trigger] c1[j] == c2[j],
    decreases i,
{
    reveal(vp_shape);
    reveal(vp_sizes);
    reveal(vp_starts);
    reveal(vp_inside);
    if i > 0 {
        lemma_same_upto(c1, c2, x, i - 1);
        lemma_same_end(c1, c2, x, i - 1);
        assert(c1[i].1 == c1[i - 1].2);
        assert(c2[i].1 == c2[i - 1].2);
        lemma_same_end(c1, c2, x, i);
        assert(chapter_here(x, c1[i].1) == Some(c1[i].0));
        assert(chapter_here(x, c2[i].1) == Some(c2[i].0));
    } else {
        lemma_same_end(c1, c2, x, 0);
    }
}

/// A text has one partition at its chapter markers: two chunk tables that
/// both partition the same text are the same table. So however a session's
/// table was reached, by a fresh split or by any sequence of edits, it is
/// the table a fresh split of its text gives.
pub proof fn partition_is_unique(c1: Seq<Part>, c2: Seq<Part>, x: Seq<u8>)
    requires
        valid_partition(c1, x),
        valid_partition(c2, x),
    ensures
        c1 == c2,
{
    reveal(vp_shape);
    reveal(vp_sizes);
    reveal(vp_starts);
    reveal(vp_inside);
    let m = if c1.len() < c2.len() { c1.len() - 1 } else { c2.len() - 1 };
    lemma_same_upto(c1, c2, x, m);
    if c1.len() < c2.len() {
        assert(c1[m].2 == x.len());
        assert(c2[m + 1].1 == c2[m].2);
        assert(chapter_here(x, c2[m + 1].1) is Some);
        lemma_chapter_here(x, x.len() as int);
    } else if c2.len() < c1.len() {
        assert(c2[m].2 == x.len());
        assert(c1[m + 1].1 == c1[m].2);
        assert(chapter_here(x, c1[m + 1].1) is Some);
        lemma_chapter_here(x, x.len() as int);
    }
    assert(c1 =~= c2);
}

/// Parts moved by `d` bytes.
pub open spec fn shift_parts(cs: Seq<Part>, d: int) -> Seq<Part> {
    cs.map_values(|c: Part| (c.0, c.1 + d, c.2 + d))
}

/// The table after an edit: the chunks before the rebuilt region as they
/// were, the region's new chunks, and the chunks after it moved by `d`.
pub open spec fn assembled(cs: Seq<Part>, first: int, last: int, mid: Seq<Part>, d: int) -> Seq<Part> {
    cs.take(first) + mid + shift_parts(cs.skip(last + 1), d)
}

/// What the rebuilt table needs: the old table partitions the old text;
/// the region's new chunks partition the region of the edited text; chapter
/// markers before the region and after it read as they did; and a region
/// that is not the whole text is not empty.
pub open spec fn combine_hyps(
    cs: Seq<Part>,
    first: int,
    last: int,
    mid: Seq<Part>,
    x: Seq<u8>,
    y: Seq<u8>,
    d: int,
) -> bool {
    &&& valid_partition(cs, x)
    &&& 0 <= first <= last < cs.len()
    &&& y.len() == x.len() + d
    &&& cs[last].2 + d >= cs[first].1
    &&& valid_partition(shift_parts(mid, -cs[first].1), y.subrange(cs[first].1, cs[last].2 + d))
    &&& forall|p: int| 0 <= p < cs[first].1 ==> chapter_here(y, p) == #[trigger] chapter_here(x, p)
    &&& forall|q: int| 0 <= q < cs[last].2 + d - cs[first].1
        ==> #[trigger] chapter_here(y.subrange(cs[first].1, cs[last].2 + d), q) == chapter_here(y, cs[first].1 + q)
    &&& forall|p: int| cs[last].2 <= p < x.len() ==> #[trigger] chapter_here(x, p) == chapter_here(y, p + d)
    &&& cs[first].1 > 0 ==> chapter_here(y, cs[first].1) == chapter_here(x, cs[first].1)
    &&& cs[last].2 + d > cs[first].1 || (first == 0 && last == cs.len() - 1)
}

/// The rebuilt region lies within the edited text.
proof fn lemma_region_bounds(cs: Seq<Part>, first: int, last: int, mid: Seq<Part>, x: Seq<u8>, y: Seq<u8>, d: int)
    requires
        combine_hyps(cs, first, last, mid, x, y, d),
    ensures
        0 <= cs[first].1 <= cs[last].2 + d <= y.len(),
        cs[last].2 <= x.len(),
        y.subrange(cs[first].1, cs[last].2 + d).len() == cs[last].2 + d - cs[first].1,
        mid.len() > 0,
{
    lemma_parts_within(cs, x, first);
    lemma_parts_within(cs, x, last);
    lemma_partition_nonempty(shift_parts(mid, -cs[first].1), y.subrange(cs[first].1, cs[last].2 + d));
}

/// Where each chunk of the rebuilt table comes from.
proof fn lemma_combine_shape(cs: Seq<Part>, first: int, last: int, mid: Seq<Part>, x: Seq<u8>, y: Seq<u8>, d: int)
    requires
        0 <= first <= last < cs.len(),
        mid.len() > 0,
    ensures
        ({
            let res = assembled(cs, first, last, mid, d);
            let rel = shift_parts(mid, -cs[first].1);
            &&& res.len() == first + mid.len() + (cs.len() - last - 1)
            &&& mid.len() > 0
            &&& forall|i: int| 0 <= i < first ==> #[trigger] res[i] == cs[i]
            &&& forall|j: int| 0 <= j < mid.len() ==> #[trigger] res[first + j] == mid[j]
            &&& forall|j: int| 0 <= j < mid.len() ==> #[trigger] mid[j] == (rel[j].0, rel[j].1 + cs[first].1, rel[j].2 + cs[first].1)
            &&& forall|k: int| 0 <= k < cs.len() - last - 1 ==> #[trigger] res[first + mid.len() + k]
                == (cs[last + 1 + k].0, cs[last + 1 + k].1 + d, cs[last + 1 + k].2 + d)
        }),
{
    let res = assembled(cs, first, last, mid, d);
    let rel = shift_parts(mid, -cs[first].1);
    assert forall|j: int| 0 <= j < mid.len() implies #[trigger] mid[j] == (rel[j].0, rel[j].1 + cs[first].1, rel[j].2 + cs[first].1) by {
        assert(rel[j] == (mid[j].0, mid[j].1 - cs[first].1, mid[j].2 - cs[first].1));
    }
}

proof fn lemma_combine_ends(cs: Seq<Part>, first: int, last: int, mid: Seq<Part>, x: Seq<u8>, y: Seq<u8>, d: int)
    requires
        combine_hyps(cs, first, last, mid, x, y, d),
    ensures
        vp_shape(assembled(cs, first, last, mid, d), y),
{
    reveal(vp_shape);
    lemma_region_bounds(cs, first, last, mid, x, y, d);
    lemma_combine_shape(cs, first, last, mid, x, y, d);
    let res = assembled(cs, first, last, mid, d);
    let rel = shift_parts(mid, -cs[first].1);
    let sub = y.subrange(cs[first].1, cs[last].2 + d);
    let n_p = first;
    let n_m = mid.len() as int;
    let n_s = cs.len() - last - 1;
    if n_p == 0 {
        assert(res[n_p + 0] == mid[0]);
    } else {
        assert(res[0] == cs[0]);
    }
    if n_s == 0 {
        assert(res[n_p + (n_m - 1)] == mid[n_m - 1]);
        assert(rel.last().2 == sub.len());
    } else {
        assert(res[n_p + n_m + (n_s - 1)] == (cs[cs.len() - 1].0, cs[cs.len() - 1].1 + d, cs[cs.len() - 1].2 + d));
    }
    assert forall|i: int| 1 <= i < res.len() implies #[trigger] res[i].1 == res[i - 1].2 by {
        if i < n_p {
            assert(res[i - 1] == cs[i - 1]);
        } else if i == n_p {
            assert(res[n_p + 0] == mid[0]);
            assert(rel[0].1 == 0);
            assert(res[i - 1] == cs[first - 1]);
        } else if i < n_p + n_m {
            let j = i - n_p;
            assert(res[n_p + j] == mid[j]);
            assert(res[n_p + (j - 1)] == mid[j - 1]);
            assert(rel[j].1 == rel[j - 1].2);
        } else if i == n_p + n_m {
            assert(res[n_p + n_m + 0] == (cs[last + 1 + 0].0, cs[last + 1 + 0].1 + d, cs[last + 1 + 0].2 + d));
            assert(res[n_p + (n_m - 1)] == mid[n_m - 1]);
            assert(rel[n_m - 1].2 == sub.len());
            assert(cs[last + 1].1 == cs[last].2);
        } else {
            let k = i - n_p - n_m;
            assert(res[n_p + n_m + k] == (cs[last + 1 + k].0, cs[last + 1 + k].1 + d, cs[last + 1 + k].2 + d));
            assert(res[n_p + n_m + (k - 1)] == (cs[last + 1 + (k - 1)].0, cs[last + 1 + (k - 1)].1 + d, cs[last + 1 + (k - 1)].2 + d));
            assert(cs[last + 1 + k].1 == cs[last + 1 + k - 1].2);
        }
    }
}

proof fn lemma_combine_sizes(cs: Seq<Part>, first: int, last: int, mid: Seq<Part>, x: Seq<u8>, y: Seq<u8>, d: int)
    requires
        combine_hyps(cs, first, last, mid, x, y, d),
    ensures
        vp_sizes(assembled(cs, first, last, mid, d)),
{
    reveal(vp_shape);
    reveal(vp_sizes);
    lemma_region_bounds(cs, first, last, mid, x, y, d);
    lemma_combine_shape(cs, first, last, mid, x, y, d);
    let res = assembled(cs, first, last, mid, d);
    let rel = shift_parts(mid, -cs[first].1);
    let sub = y.subrange(cs[first].1, cs[last].2 + d);
    let n_p = first;
    let n_m = mid.len() as int;
    assert forall|i: int| 0 <= i < res.len() implies #[trigger] res[i].1 < res[i].2 || res.len() == 1 by {
        if i < n_p {
            assert(cs[i].1 < cs[i].2 || cs.len() == 1);
        } else if i < n_p + n_m {
            let j = i - n_p;
            assert(res[n_p + j] == mid[j]);
            assert(rel[j].1 < rel[j].2 || rel.len() == 1);
            if rel.len() == 1 && res.len() > 1 {
                assert(rel[0].1 == 0 && rel[0].2 == sub.len());
            }
        } else {
            let k = i - n_p - n_m;
            assert(res[n_p + n_m + k] == (cs[last + 1 + k].0, cs[last + 1 + k].1 + d, cs[last + 1 + k].2 + d));
            assert(cs[last + 1 + k].1 < cs[last + 1 + k].2 || cs.len() == 1);
        }
    }
}

proof fn lemma_combine_starts(cs: Seq<Part>, first: int, last: int, mid: Seq<Part>, x: Seq<u8>, y: Seq<u8>, d: int)
    requires
        combine_hyps(cs, first, last, mid, x, y, d),
    ensures
        vp_starts(assembled(cs, first, last, mid, d), y),
{
    lemma_region_bounds(cs, first, last, mid, x, y, d);
    lemma_combine_shape(cs, first, last, mid, x, y, d);
    reveal(vp_starts);
    reveal(vp_sizes);
    reveal(vp_shape);
    let res = assembled(cs, first, last, mid, d);
    let rel = shift_parts(mid, -cs[first].1);
    let r0 = cs[first].1;
    let sub = y.subrange(r0, cs[last].2 + d);
    let n_p = first;
    let n_m = mid.len() as int;
    let n_s = cs.len() - last - 1;
    assert forall|i: int| 1 <= i < n_p implies chapter_here(y, #[trigger] res[i].1) == Some(res[i].0) by {
        assert(res[i] == cs[i]);
        assert(chapter_here(x, cs[i].1) == Some(cs[i].0));
        lemma_starts_below(cs, x, i, first);
        lemma_starts_nonneg(cs, x, i);
        assert(chapter_here(y, cs[i].1) == chapter_here(x, cs[i].1));
    }
    assert forall|j: int| 0 <= j < n_m && n_p + j >= 1 implies chapter_here(y, #[trigger] res[n_p + j].1) == Some(res[n_p + j].0) by {
        assert(res[n_p + j] == mid[j]);
        assert(mid[j] == (rel[j].0, rel[j].1 + r0, rel[j].2 + r0));
        if j > 0 {
            assert(chapter_here(sub, rel[j].1) == Some(rel[j].0));
            lemma_parts_within(rel, sub, j);
            assert(rel[j].1 < rel[j].2 || rel.len() == 1);
            assert(0 <= rel[j].1 < sub.len());
            assert(chapter_here(sub, rel[j].1) == chapter_here(y, r0 + rel[j].1));
            assert(chapter_here(y, res[n_p + j].1) == Some(res[n_p + j].0));
        } else {
            assert(first > 0);
            lemma_starts_below(cs, x, 0, first);
            lemma_starts_nonneg(cs, x, 0);
            assert(r0 > 0);
            assert(sub.len() > 0);
            assert(chapter_here(x, r0) == Some(cs[first].0));
            assert(chapter_here(y, r0) == chapter_here(x, r0));
            assert(rel[0].0 == match chapter_here(sub, 0) {
                Some(n) => n,
                None => None,
            });
            assert(rel[0].1 == 0);
            if sub.len() > 0 {
                assert(chapter_here(sub, 0) == chapter_here(y, r0 + 0));
            } else {
                lemma_chapter_here(y, r0);
                lemma_chapter_here(x, r0);
                lemma_parts_within(cs, x, first);
            }
            assert(chapter_here(y, res[n_p + j].1) == Some(res[n_p + j].0));
        }
    }
    assert forall|k: int| 0 <= k < n_s implies chapter_here(y, #[trigger] res[n_p + n_m + k].1) == Some(res[n_p + n_m + k].0) by {
        let c = cs[last + 1 + k];
        assert(res[n_p + n_m + k] == (c.0, c.1 + d, c.2 + d));
        assert(chapter_here(x, c.1) == Some(c.0));
        lemma_parts_within(cs, x, last + 1 + k);
        lemma_starts_above(cs, x, last, last + 1 + k);
        lemma_chapter_here(x, c.1);
        assert(chapter_here(x, c.1) == chapter_here(y, c.1 + d));
    }
    assert forall|i: int| 1 <= i < res.len() implies chapter_here(y, #[trigger] res[i].1) == Some(res[i].0) by {
        if i < n_p {
        } else if i < n_p + n_m {
            let j = i - n_p;
            assert(res[n_p + j].1 == res[i].1);
        } else {
            let k = i - n_p - n_m;
            assert(res[n_p + n_m + k].1 == res[i].1);
        }
    }
    if n_p == 0 {
        assert(res[n_p + 0] == mid[0]);
        assert(r0 == 0);
        assert(rel[0].0 == match chapter_here(sub, 0) {
            Some(n) => n,
            None => None,
        });
        if sub.len() > 0 {
            assert(chapter_here(sub, 0) == chapter_here(y, r0 + 0));
        } else {
            lemma_chapter_here(y, 0);
            lemma_chapter_here(sub, 0);
        }
    } else {
        assert(res[0] == cs[0]);
        lemma_starts_below(cs, x, 0, first);
        lemma_starts_nonneg(cs, x, 0);
        if r0 > 0 {
            assert(chapter_here(y, 0) == chapter_here(x, 0));
        }
    }
}

proof fn lemma_combine_inside(cs: Seq<Part>, first: int, last: int, mid: Seq<Part>, x: Seq<u8>, y: Seq<u8>, d: int)
    requires
        combine_hyps(cs, first, last, mid, x, y, d),
    ensures
        vp_inside(assembled(cs, first, last, mid, d), y),
{
    reveal(vp_inside);
    lemma_region_bounds(cs, first, last, mid, x, y, d);
    lemma_combine_shape(cs, first, last, mid, x, y, d);
    let res = assembled(cs, first, last, mid, d);
    let rel = shift_parts(mid, -cs[first].1);
    let r0 = cs[first].1;
    let sub = y.subrange(r0, cs[last].2 + d);
    let n_p = first;
    let n_m = mid.len() as int;
    assert forall|i: int, p: int|
        #![trigger res[i], chapter_here(y, p)]
        0 <= i < res.len() && res[i].1 < p < res[i].2 implies chapter_here(y, p) is None by {
        if i < n_p {
            lemma_parts_within(cs, x, i);
            lemma_ends_below(cs, x, i, first);
            assert(cs[i].1 < p < cs[i].2);
            assert(chapter_here(x, p) is None);
        } else if i < n_p + n_m {
            let j = i - n_p;
            assert(res[n_p + j] == mid[j]);
            lemma_parts_within(rel, sub, j);
            assert(rel[j].1 < p - r0 < rel[j].2);
            assert(chapter_here(sub, p - r0) is None);
            assert(chapter_here(sub, p - r0) == chapter_here(y, r0 + (p - r0)));
        } else {
            let k = i - n_p - n_m;
            assert(res[n_p + n_m + k] == (cs[last + 1 + k].0, cs[last + 1 + k].1 + d, cs[last + 1 + k].2 + d));
            assert(cs[last + 1 + k].1 < p - d < cs[last + 1 + k].2);
            lemma_parts_within(cs, x, last + 1 + k);
            lemma_starts_above(cs, x, last, last + 1 + k);
            assert(chapter_here(x, p - d) is None);
            assert(chapter_here(x, p - d) == chapter_here(y, (p - d) + d));
        }
    }
}

/// The rebuilt table partitions the edited text.
proof fn lemma_combine(cs: Seq<Part>, first: int, last: int, mid: Seq<Part>, x: Seq<u8>, y: Seq<u8>, d: int)
    requires
        combine_hyps(cs, first, last, mid, x, y, d),
    ensures
        valid_partition(assembled(cs, first, last, mid, d), y),
{
    lemma_combine_ends(cs, first, last, mid, x, y, d);
    lemma_combine_sizes(cs, first, last, mid, x, y, d);
    lemma_combine_starts(cs, first, last, mid, x, y, d);
    lemma_combine_inside(cs, first, last, mid, x, y, d);
}

/// A partition has at least one chunk.
proof fn lemma_partition_nonempty(cs: Seq<Part>, x: Seq<u8>)
    requires
        valid_partition(cs, x),
    ensures
        cs.len() > 0,
{
    reveal(vp_shape);
}

/// Every chunk of a partition lies within the text.
proof fn lemma_parts_within(cs: Seq<Part>, x: Seq<u8>, i: int)
    requires
        valid_partition(cs, x),
        0 <= i < cs.len(),
    ensures
        0 <= cs[i].1 <= cs[i].2 <= x.len(),
    decreases cs.len() - i,
{
    reveal(vp_shape);
    reveal(vp_sizes);
    reveal(vp_starts);
    reveal(vp_inside);
    lemma_starts_nonneg(cs, x, i);
    if i + 1 < cs.len() {
        lemma_parts_within(cs, x, i + 1);
        assert(cs[i + 1].1 == cs[i].2);
    }
    assert(cs[i].1 < cs[i].2 || cs.len() == 1);
}

proof fn lemma_starts_nonneg(cs: Seq<Part>, x: Seq<u8>, i: int)
    requires
        valid_partition(cs, x),
        0 <= i < cs.len(),
    ensures
        0 <= cs[i].1,
    decreases i,
{
    reveal(vp_shape);
    reveal(vp_sizes);
    reveal(vp_starts);
    reveal(vp_inside);
    if i > 0 {
        lemma_starts_nonneg(cs, x, i - 1);
        assert(cs[i].1 == cs[i - 1].2);
        assert(cs[i - 1].1 < cs[i - 1].2 || cs.len() == 1);
    }
}

/// A chunk before chunk `j` starts before it.
proof fn lemma_starts_below(cs: Seq<Part>, x: Seq<u8>, i: int, j: int)
    requires
        valid_partition(cs, x),
        0 <= i < j < cs.len(),
    ensures
        cs[i].1 < cs[j].1,
        cs[i].2 <= cs[j].1,
    decreases j - i,
{
    reveal(vp_shape);
    reveal(vp_sizes);
    reveal(vp_starts);
    reveal(vp_inside);
    assert(cs[i].1 < cs[i].2 || cs.len() == 1);
    if i + 1 < j {
        lemma_starts_below(cs, x, i + 1, j);
    }
    assert(cs[i + 1].1 == cs[i].2);
}

/// A chunk before chunk `j` ends no later than chunk `j` starts.
proof fn lemma_ends_below(cs: Seq<Part>, x: Seq<u8>, i: int, j: int)
    requires
        valid_partition(cs, x),
        0 <= i < j < cs.len(),
    ensures
        cs[i].2 <= cs[j].1,
{
    lemma_starts_below(cs, x, i, j);
}

/// A chunk after chunk `i` starts no earlier than chunk `i` ends.
proof fn lemma_starts_above(cs: Seq<Part>, x: Seq<u8>, i: int, j: int)
    requires
        valid_partition(cs, x),
        0 <= i < j < cs.len(),
    ensures
        cs[i].2 <= cs[j].1,
{
    lemma_starts_below(cs, x, i, j);
}


/// One edit, in byte offsets against the document as it was before the
/// batch it belongs to was applied.
#[derive(Debug, Clone, PartialEq, Eq)]
pub struct Edit {
    pub range: ByteSpan,
    pub insert: String,
}

impl Edit {
    pub fn new(range: ByteSpan, insert: &str) -> (e: Edit)
        ensures
            e.range == range,
            e.insert@ == insert@,
    {
        Edit { range, insert: insert.to_owned() }
    }
}

/// Why an edit was refused. Refused rather than applied as well as
/// possible: an edit the session cannot apply exactly would leave the
/// editor's copy of the text and the session's apart.
#[derive(Debug, Clone, PartialEq, Eq)]
pub enum EditError {
    /// The range ran past the end of the document, or was inverted.
    OutOfBounds { range: ByteSpan, len: usize },
    /// An endpoint fell inside a character.
    NotOnCharBoundary { offset: usize },
    /// Edits must be ascending and must not overlap.
    Overlapping { previous_end: usize, start: usize },
}

/// What an applied batch cost.
#[derive(Debug, Clone, PartialEq, Eq)]
pub struct Applied {
    pub rev: u64,
    /// Chunks that were rebuilt.
    pub invalidated: usize,
    /// Their total size.
    pub invalidated_bytes: usize,
    /// Chunks that only moved.
    pub shifted: usize,
}

impl Default for Applied {
    fn default() -> (a: Self)
        ensures
            a.rev == 0 && a.invalidated == 0 && a.invalidated_bytes == 0 && a.shifted == 0,
    {
        Applied { rev: 0, invalidated: 0, invalidated_bytes: 0, shifted: 0 }
    }
}

/// A value in the range of `usize`, or the nearer end of that range.
pub open spec fn clamp_usize(v: int) -> usize {
    if v < 0 {
        0
    } else if v > usize::MAX {
        usize::MAX
    } else {
        v as usize
    }
}

/// Why an edit of `x[s..e)` is refused, if it is: the range is inverted or
/// runs past the end, or an endpoint falls inside a character.
pub open spec fn refusal(x: Seq<u8>, s: int, e: int) -> Option<EditError> {
    if s < 0 || s > e || e > x.len() {
        Some(EditError::OutOfBounds { range: ByteSpan { start: clamp_usize(s), end: clamp_usize(e) }, len: x.len() as usize })
    } else if !at_boundary(x, s) {
        Some(EditError::NotOnCharBoundary { offset: s as usize })
    } else if !at_boundary(x, e) {
        Some(EditError::NotOnCharBoundary { offset: e as usize })
    } else {
        None
    }
}

/// `x` with `x[s..e)` replaced by `ins`.
pub open spec fn splice(x: Seq<u8>, s: int, e: int, ins: Seq<u8>) -> Seq<u8> {
    x.take(s) + ins + x.skip(e)
}

/// An editable document, kept partitioned at its chapter markers.
pub struct Session {
    source: String,
    chunks: Vec<Chunk>,
    rev: u64,
    config: DiagnosticConfig,
}

impl Session {
    /// The document's text.
    pub closed spec fn text(&self) -> Seq<char> {
        self.source@
    }

    /// The chunk table.
    pub closed spec fn table(&self) -> Seq<Chunk> {
        self.chunks@
    }

    /// How many batches have been applied.
    pub closed spec fn revision(&self) -> u64 {
        self.rev
    }

    /// The configuration diagnostics are judged by.
    pub closed spec fn settings(&self) -> DiagnosticConfig {
        self.config
    }

    /// The document's bytes.
    pub open spec fn bytes(&self) -> Seq<u8> {
        encode_utf8(self.text())
    }

    /// The chunk table partitions the text at its chapter markers.
    pub open spec fn wf(&self) -> bool {
        valid_partition(parts_of(self.table(), 0), self.bytes())
    }

    /// Partitions `source` into chunks, with the configuration its own
    /// `\usfm` line implies.
    pub fn new(source: &str) -> (s: Session)
        ensures
            s.wf(),
            s.text() == source@,
            s.revision() == 0,
            s.settings().target_version == (Version { major: 3, minor: 1 }),
            s.settings().document_version == version_of(source@),
            s.settings().suppressed@.len() == 0,
            forall|i: int| 0 <= i < s.table().len() ==> #[trigger] s.table()[i].rev_spec() == 0,
    {
        let config = DiagnosticConfig::for_source(source);
        Session::with_config(source, config)
    }

    /// Partitions `source` into chunks, with the configuration given.
    pub fn with_config(source: &str, config: DiagnosticConfig) -> (s: Session)
        ensures
            s.wf(),
            s.text() == source@,
            s.revision() == 0,
            s.settings() == config,
            forall|i: int| 0 <= i < s.table().len() ==> #[trigger] s.table()[i].rev_spec() == 0,
    {
        let text = source.to_owned();
        let bytes = text.as_str().as_bytes();
        let _n = bytes.len();
        let chunks = split(bytes, 0, 0);
        Session { source: text, chunks, rev: 0, config }
    }

    pub fn config(&self) -> (c: &DiagnosticConfig)
        ensures
            *c == self.settings(),
    {
        &self.config
    }

    pub fn source(&self) -> (t: &str)
        ensures
            t@ == self.text(),
    {
        self.source.as_str()
    }

    pub fn rev(&self) -> (r: u64)
        ensures
            r == self.revision(),
    {
        self.rev
    }

    pub fn chunks(&self) -> (c: &[Chunk])
        ensures
            c@ == self.table(),
    {
        self.chunks.as_slice()
    }
}


/// The last chunk that starts at or before `o`, looking no further than `i`.
pub open spec fn index_at(ps: Seq<Part>, o: int, i: int) -> int
    decreases i,
{
    if i <= 0 {
        0
    } else if ps[i].1 <= o {
        i
    } else {
        index_at(ps, o, i - 1)
    }
}

/// Whether the line that ends at `le` ends with a newline.
pub open spec fn terminated(x: Seq<u8>, le: int) -> bool {
    le > 0 && x[le - 1] == 10u8
}

/// The chunks an edit of `x[s..e)` can change the shape of: the chunks it
/// lands in, widened left by one when it reaches into the first one's
/// chapter line (or that line is the text's unterminated last line), and
/// right by one when it reaches the last line of the last one.
pub open spec fn affected(ps: Seq<Part>, x: Seq<u8>, s: int, e: int) -> (int, int) {
    let f0 = index_at(ps, s, ps.len() - 1);
    let l0 = index_at(ps, e, ps.len() - 1);
    let le = line_end_at(x, ps[f0].1);
    let f = if (s < le || !terminated(x, le)) && f0 > 0 { f0 - 1 } else { f0 };
    let tail = if ps[l0].2 > 0 { ps[l0].2 - 1 } else { 0 };
    let l = if l0 + 1 < ps.len() && e >= line_start_at(x, tail) { l0 + 1 } else { l0 };
    (f, l)
}

/// In a partition, the chunk `index_at` picks starts at or before `o`, and
/// every later chunk up to `i` starts after it.
proof fn lemma_index_at(ps: Seq<Part>, x: Seq<u8>, o: int, i: int)
    requires
        valid_partition(ps, x),
        0 <= i < ps.len(),
        0 <= o,
    ensures
        0 <= index_at(ps, o, i) <= i,
        ps[index_at(ps, o, i)].1 <= o,
        forall|j: int| index_at(ps, o, i) < j <= i ==> o < #[trigger] ps[j].1,
    decreases i,
{
    reveal(vp_shape);
    if i > 0 && ps[i].1 > o {
        lemma_index_at(ps, x, o, i - 1);
    }
}

/// A line begins no later than the offset it is asked about.
proof fn lemma_line_start_le(x: Seq<u8>, o: int)
    ensures
        line_start_at(x, o) <= o || o <= 0,
        0 <= line_start_at(x, o),
    decreases o,
{
    if 0 < o <= x.len() && x[o - 1] != 10u8 {
        lemma_line_start_le(x, o - 1);
    }
}

/// A line ends no later than the next line start after it.
proof fn lemma_line_end_before(x: Seq<u8>, p: int, q: int)
    requires
        0 <= p < q <= x.len(),
        x[q - 1] == 10u8,
    ensures
        line_end_at(x, p) <= q,
{
    lemma_line_end(x, p);
    if line_end_at(x, p) > q {
        assert(x[q - 1] != 10u8);
    }
}

/// Text before `k` is the same in `x` and in `x` edited at or after `k`.
proof fn lemma_splice_take(x: Seq<u8>, s: int, e: int, ins: Seq<u8>, k: int)
    requires
        0 <= k <= s <= e <= x.len(),
    ensures
        splice(x, s, e, ins).take(k) == x.take(k),
{
    assert(splice(x, s, e, ins).take(k) =~= x.take(k));
}

/// Text from `k` on, at or after the edit's end, only moves.
proof fn lemma_splice_skip(x: Seq<u8>, s: int, e: int, ins: Seq<u8>, k: int)
    requires
        0 <= s <= e <= k <= x.len(),
    ensures
        splice(x, s, e, ins).skip(k + ins.len() - (e - s)) == x.skip(k),
        splice(x, s, e, ins).len() == x.len() + ins.len() - (e - s),
{
    assert(splice(x, s, e, ins).skip(k + ins.len() - (e - s)) =~= x.skip(k));
}

/// A chunk other than the first starts just after a newline.
proof fn lemma_start_after_newline(cs: Seq<Part>, x: Seq<u8>, i: int)
    requires
        valid_partition(cs, x),
        0 < i < cs.len(),
    ensures
        0 < cs[i].1 < x.len(),
        x[cs[i].1 - 1] == 10u8,
{
    reveal(vp_starts);
    lemma_chapter_here(x, cs[i].1);
    assert(chapter_here(x, cs[i].1) is Some);
    lemma_starts_below(cs, x, 0, i);
    lemma_starts_nonneg(cs, x, 0);
}


/// Where the chunks `affected` picks lie: around the edit, within the text.
proof fn lemma_edit_bounds(cs: Seq<Part>, x: Seq<u8>, s: int, e: int, ins: Seq<u8>)
    requires
        valid_partition(cs, x),
        0 <= s <= e <= x.len(),
    ensures
        ({
            let (f, l) = affected(cs, x, s, e);
            let d = ins.len() - (e - s);
            &&& 0 <= f <= l < cs.len()
            &&& 0 <= cs[f].1 <= s
            &&& e <= cs[l].2 <= x.len()
            &&& l + 1 < cs.len() ==> e < cs[l].2
            &&& cs[f].1 <= cs[l].2 + d <= x.len() + d
        }),
{
    reveal(vp_shape);
    reveal(vp_sizes);
    let n = cs.len() as int;
    lemma_partition_nonempty(cs, x);
    let f0 = index_at(cs, s, n - 1);
    let l0 = index_at(cs, e, n - 1);
    lemma_index_at(cs, x, s, n - 1);
    lemma_index_at(cs, x, e, n - 1);
    if f0 > l0 {
        assert(e < cs[f0].1);
    }
    let (f, l) = affected(cs, x, s, e);
    if f < f0 {
        lemma_starts_below(cs, x, f, f0);
    }
    lemma_starts_nonneg(cs, x, f);
    lemma_parts_within(cs, x, l);
    if l == l0 + 1 {
        assert(e < cs[l0 + 1].1);
    } else if l0 + 1 < n {
        lemma_parts_within(cs, x, l0);
        assert(cs[l0].1 < cs[l0].2);
        lemma_line_start_le(x, cs[l0].2 - 1);
    }
}

/// When the rebuilt region starts after the text's start, the edit comes
/// after that region's whole first line, and the line ends in a newline.
proof fn lemma_edit_left(cs: Seq<Part>, x: Seq<u8>, s: int, e: int, ins: Seq<u8>)
    requires
        valid_partition(cs, x),
        0 <= s <= e <= x.len(),
        affected(cs, x, s, e).0 > 0,
    ensures
        ({
            let f = affected(cs, x, s, e).0;
            let le = line_end_at(x, cs[f].1);
            &&& 0 < cs[f].1 < le <= s
            &&& le <= x.len()
            &&& x[le - 1] == 10u8
        }),
{
    reveal(vp_shape);
    lemma_edit_bounds(cs, x, s, e, ins);
    let n = cs.len() as int;
    let f0 = index_at(cs, s, n - 1);
    lemma_index_at(cs, x, s, n - 1);
    let f = affected(cs, x, s, e).0;
    lemma_start_after_newline(cs, x, f);
    let r0 = cs[f].1;
    lemma_line_end(x, r0);
    if f + 1 == f0 {
        lemma_start_after_newline(cs, x, f0);
        lemma_starts_below(cs, x, f, f0);
        lemma_line_end_before(x, r0, cs[f0].1);
    }
}

/// An edit inside the chunks `affected` picks leaves every chapter marker
/// outside them reading as it did, so a partition of the rebuilt region
/// combines with the rest of the table.
proof fn lemma_edit_hyps(cs: Seq<Part>, x: Seq<u8>, s: int, e: int, ins: Seq<u8>, mid: Seq<Part>)
    requires
        valid_partition(cs, x),
        0 <= s <= e <= x.len(),
        ({
            let (f, l) = affected(cs, x, s, e);
            let y = splice(x, s, e, ins);
            let d = ins.len() - (e - s);
            valid_partition(shift_parts(mid, -cs[f].1), y.subrange(cs[f].1, cs[l].2 + d))
        }),
    ensures
        ({
            let (f, l) = affected(cs, x, s, e);
            combine_hyps(cs, f, l, mid, x, splice(x, s, e, ins), ins.len() - (e - s))
        }),
{
    reveal(vp_shape);
    lemma_edit_bounds(cs, x, s, e, ins);
    let (f, l) = affected(cs, x, s, e);
    let y = splice(x, s, e, ins);
    let d = ins.len() - (e - s);
    let r0 = cs[f].1;
    let big_e = cs[l].2 + d;
    lemma_splice_skip(x, s, e, ins, e);
    if f > 0 {
        lemma_edit_left(cs, x, s, e, ins);
        lemma_start_after_newline(cs, x, f);
        lemma_splice_take(x, s, e, ins, r0);
        assert(y.take(r0)[r0 - 1] == x.take(r0)[r0 - 1]);
        assert forall|p: int| 0 <= p < r0 implies chapter_here(y, p) == #[trigger] chapter_here(x, p) by {
            lemma_chapter_take(x, r0, p);
            lemma_chapter_take(y, r0, p);
        }
        let le = line_end_at(x, r0);
        lemma_splice_take(x, s, e, ins, le);
        assert(y.take(le)[le - 1] == x.take(le)[le - 1]);
        lemma_chapter_take(x, le, r0);
        lemma_chapter_take(y, le, r0);
    }
    // the region's end is a line start in the edited text, or its end
    if l + 1 < cs.len() {
        lemma_start_after_newline(cs, x, l + 1);
        assert(cs[l + 1].1 == cs[l].2);
        lemma_splice_skip(x, s, e, ins, cs[l].2 - 1);
        assert(y.skip(big_e - 1)[0] == x.skip(cs[l].2 - 1)[0]);
        assert(y[big_e - 1] == 10u8);
    }
    let sub = y.subrange(r0, big_e);
    let cut = y.take(big_e);
    assert(sub =~= cut.skip(r0));
    if r0 > 0 {
        assert(cut[r0 - 1] == y[r0 - 1]);
    }
    assert forall|q: int| 0 <= q < big_e - r0 implies #[trigger] chapter_here(sub, q) == chapter_here(y, r0 + q) by {
        lemma_chapter_take(y, big_e, r0 + q);
        lemma_chapter_skip(cut, r0, r0 + q);
    }
    if l + 1 < cs.len() {
        let k = cs[l].2;
        lemma_splice_skip(x, s, e, ins, k);
        assert forall|p: int| k <= p < x.len() implies #[trigger] chapter_here(x, p) == chapter_here(y, p + d) by {
            lemma_chapter_skip(x, k, p);
            lemma_chapter_skip(y, big_e, p + d);
        }
    } else {
        assert(cs[l].2 == x.len());
    }
}


/// The last chunk that starts at or before `o`.
fn chunk_index(chunks: &Vec<Chunk>, o: usize) -> (r: usize)
    requires
        chunks@.len() > 0,
    ensures
        r == index_at(parts_of(chunks@, 0), o as int, chunks@.len() - 1),
        r < chunks@.len(),
{
    let ghost ps = parts_of(chunks@, 0);
    let mut i = chunks.len() - 1;
    while i > 0 && chunks[i].start > o
        invariant
            i < chunks@.len(),
            ps == parts_of(chunks@, 0),
            index_at(ps, o as int, chunks@.len() - 1) == index_at(ps, o as int, i as int),
        decreases i,
    {
        assert(ps[i as int].1 == chunks@[i as int].start);
        i -= 1;
    }
    proof {
        if i > 0 {
            assert(ps[i as int].1 == chunks@[i as int].start);
        }
    }
    i
}

/// The parts of chunks relative to `base` are their parts relative to the
/// start moved back by `base`.
proof fn lemma_parts_shift(cs: Seq<Chunk>, base: int)
    ensures
        shift_parts(parts_of(cs, 0), -base) == parts_of(cs, base),
{
    assert(shift_parts(parts_of(cs, 0), -base) =~= parts_of(cs, base));
}

/// What an edit of `[s, e)` to `ins`, stamped `rev`, leaves behind: the
/// edited text, still partitioned; the chunks before the rebuilt region as
/// they were; the region's chunks stamped `rev`; the chunks after it moved
/// by the change in length and otherwise as they were; and `a` counting
/// the region's chunks, its new size, and the chunks after it.
pub open spec fn edit_done(before: Session, after: Session, s: int, e: int, ins: Seq<u8>, rev: u64, a: Applied) -> bool {
    let ps = parts_of(before.table(), 0);
    let x = before.bytes();
    let (f, l) = affected(ps, x, s, e);
    let d = ins.len() - (e - s);
    let k = ps.len() - l - 1;
    let n = after.table().len();
    &&& after.wf()
    &&& after.bytes() == splice(x, s, e, ins)
    &&& after.settings() == before.settings()
    &&& a.rev == rev
    &&& a.shifted == k
    &&& a.invalidated == n - k - f
    &&& a.invalidated_bytes == ps[l].2 + d - ps[f].1
    &&& forall|i: int| 0 <= i < f ==> #[trigger] after.table()[i] == before.table()[i]
    &&& forall|i: int| f <= i < n - k ==> #[trigger] after.table()[i].rev_spec() == rev
    &&& forall|i: int| n - k <= i < n ==> ({
        let o = before.table()[i - (n - k) + l + 1];
        &&& (#[trigger] after.table()[i])@ == (o@.0, o@.1 + d, o@.2 + d)
        &&& after.table()[i].rev_spec() == o.rev_spec()
    })
}


/// The chunk table after an edit: `old`'s chunks before `f`, then `mid`,
/// then `old`'s chunks after `l` moved by `grow - shrink`.
fn assemble(old: &Vec<Chunk>, f: usize, l: usize, mid: Vec<Chunk>, grow: usize, shrink: usize) -> (out: Vec<Chunk>)
    requires
        f <= l < old@.len(),
        forall|t: int| l < t < old@.len() ==> shrink <= (#[trigger] old@[t]).start <= old@[t].end
            && old@[t].end + grow <= usize::MAX,
    ensures
        out@.len() == f + mid@.len() + (old@.len() - l - 1),
        forall|t: int| 0 <= t < f ==> #[trigger] out@[t] == old@[t],
        forall|t: int| 0 <= t < mid@.len() ==> #[trigger] out@[f + t] == mid@[t],
        forall|t: int| f + mid@.len() <= t < out@.len() ==> ({
            let o = old@[t - f - mid@.len() + l + 1];
            &&& (#[trigger] out@[t])@ == (o@.0, o@.1 + grow - shrink, o@.2 + grow - shrink)
            &&& out@[t].rev_spec() == o.rev_spec()
        }),
{
    let mut out: Vec<Chunk> = Vec::new();
    let mut i: usize = 0;
    while i < f
        invariant
            i <= f <= l < old@.len(),
            out@.len() == i,
            forall|t: int| 0 <= t < i ==> #[trigger] out@[t] == old@[t],
        decreases f - i,
    {
        out.push(old[i]);
        i += 1;
    }
    let m = mid.len();
    let mut j: usize = 0;
    while j < m
        invariant
            j <= m == mid@.len(),
            f <= l < old@.len(),
            out@.len() == f + j,
            forall|t: int| 0 <= t < f ==> #[trigger] out@[t] == old@[t],
            forall|t: int| 0 <= t < j ==> #[trigger] out@[f + t] == mid@[t],
        decreases m - j,
    {
        out.push(mid[j]);
        j += 1;
    }
    let n = old.len();
    let mut k: usize = l + 1;
    while k < n
        invariant
            l + 1 <= k <= n == old@.len(),
            m == mid@.len(),
            f <= l,
            out@.len() == f + m + (k - l - 1),
            forall|t: int| l < t < old@.len() ==> shrink <= (#[trigger] old@[t]).start <= old@[t].end
                && old@[t].end + grow <= usize::MAX,
            forall|t: int| 0 <= t < f ==> #[trigger] out@[t] == old@[t],
            forall|t: int| 0 <= t < m ==> #[trigger] out@[f + t] == mid@[t],
            forall|t: int| f + m <= t < out@.len() ==> ({
                let o = old@[t - f - m + l + 1];
                &&& (#[trigger] out@[t])@ == (o@.0, o@.1 + grow - shrink, o@.2 + grow - shrink)
                &&& out@[t].rev_spec() == o.rev_spec()
            }),
        decreases n - k,
    {
        let c = old[k];
        let moved = Chunk { number: c.number, start: c.start + grow - shrink, end: c.end + grow - shrink, rev: c.rev };
        out.push(moved);
        k += 1;
    }
    out
}

/// The assembled table's parts are the parts of the old table put together
/// around the new region.
proof fn lemma_assembled_parts(out: Seq<Chunk>, old: Seq<Chunk>, f: int, l: int, mid: Seq<Chunk>, d: int)
    requires
        0 <= f <= l < old.len(),
        out.len() == f + mid.len() + (old.len() - l - 1),
        forall|t: int| 0 <= t < f ==> #[trigger] out[t] == old[t],
        forall|t: int| 0 <= t < mid.len() ==> #[trigger] out[f + t] == mid[t],
        forall|t: int| f + mid.len() <= t < out.len() ==> ({
            let o = old[t - f - mid.len() + l + 1];
            (#[trigger] out[t])@ == (o@.0, o@.1 + d, o@.2 + d)
        }),
    ensures
        parts_of(out, 0) == assembled(parts_of(old, 0), f, l, parts_of(mid, 0), d),
{
    let a = assembled(parts_of(old, 0), f, l, parts_of(mid, 0), d);
    let p = parts_of(out, 0);
    assert forall|t: int| 0 <= t < p.len() implies #[trigger] p[t] == a[t] by {
        if t < f {
            assert(out[t] == old[t]);
        } else if t < f + mid.len() {
            assert(out[f + (t - f)] == mid[t - f]);
        } else {
            let o = old[t - f - mid.len() + l + 1];
            assert(out[t]@ == (o@.0, o@.1 + d, o@.2 + d));
        }
    }
    assert(p =~= a);
}


impl Session {
    /// Replaces `[s, e)` with `insert`, rebuilding the chunks `affected`
    /// picks and moving the ones after them.
    #[verifier::rlimit(60)]
    #[verifier::spinoff_prover]
    fn edit_one(&mut self, s: usize, e: usize, insert: &str, rev: u64) -> (r: Result<Applied, EditError>)
        requires
            old(self).wf(),
        ensures
            r.is_err() <==> refusal(old(self).bytes(), s as int, e as int) is Some,
            r matches Err(err) ==> refusal(old(self).bytes(), s as int, e as int) == Some(err)
                && *final(self) == *old(self),
            r matches Ok(a) ==> edit_done(*old(self), *final(self), s as int, e as int, insert.spec_bytes(), rev, a)
                && final(self).revision() == old(self).revision(),
    {
        let src = self.source.as_str();
        let x = src.as_bytes();
        let x_len = x.len();
        if s > e || e > x_len {
            return Err(EditError::OutOfBounds { range: ByteSpan::new(s, e), len: x_len });
        }
        if !is_boundary(src, s) {
            return Err(EditError::NotOnCharBoundary { offset: s });
        }
        if !is_boundary(src, e) {
            return Err(EditError::NotOnCharBoundary { offset: e });
        }
        let ghost cs = parts_of(self.chunks@, 0);
        let ghost xs = x@;
        let ghost ins = insert.spec_bytes();
        proof {
            lemma_edit_bounds(cs, xs, s as int, e as int, ins);
            lemma_partition_nonempty(cs, xs);
        }
        let count = self.chunks.len();
        let f0 = chunk_index(&self.chunks, s);
        let l0 = chunk_index(&self.chunks, e);
        proof {
            lemma_parts_within(cs, xs, f0 as int);
            lemma_parts_within(cs, xs, l0 as int);
        }
        let le = line_end(x, self.chunks[f0].start);
        let mut f = f0;
        if (s < le || le == 0 || x[le - 1] != 10u8) && f0 > 0 {
            f = f0 - 1;
        }
        let end0 = self.chunks[l0].end;
        let tail = if end0 > 0 { end0 - 1 } else { 0 };
        let mut l = l0;
        if l0 + 1 < count && e >= line_start(x, tail) {
            l = l0 + 1;
        }
        assert((f as int, l as int) == affected(cs, xs, s as int, e as int));
        let r0 = self.chunks[f].start;
        let old_end = self.chunks[l].end;

        proof {
            lemma_str_boundary(src, s as int);
            lemma_str_boundary(src, e as int);
        }
        let (head, _) = src.split_at(s);
        let (_, rest) = src.split_at(e);
        let mut y = String::new();
        push_str(&mut y, head);
        push_str(&mut y, insert);
        push_str(&mut y, rest);
        let ghost ys = splice(xs, s as int, e as int, ins);
        proof {
            lemma_encode_concat(head@ + insert@, rest@);
            lemma_encode_concat(head@, insert@);
            assert(head@ + insert@ + rest@ == y@);
            assert(head.spec_bytes() =~= xs.take(s as int));
            assert(rest.spec_bytes() =~= xs.skip(e as int));
            assert(encode_utf8(y@) == ys);
            lemma_splice_skip(xs, s as int, e as int, ins, e as int);
        }
        let yb = y.as_str().as_bytes();
        let y_len = yb.len();
        let region_end = y_len - (x_len - old_end);
        let sub = slice_subrange(yb, r0, region_end);
        let mid = split(sub, r0, rev);
        let ghost d = ins.len() - (e - s);
        proof {
            lemma_parts_shift(mid@, r0 as int);
            lemma_edit_hyps(cs, xs, s as int, e as int, ins, parts_of(mid@, 0));
            lemma_combine(cs, f as int, l as int, parts_of(mid@, 0), xs, ys, d);
            assert forall|t: int| l < t < self.chunks@.len() implies
                (if y_len >= x_len { 0 } else { x_len - y_len }) <= (#[trigger] self.chunks@[t]).start <= self.chunks@[t].end
                && self.chunks@[t].end + (if y_len >= x_len { y_len - x_len } else { 0 }) <= usize::MAX by {
                lemma_starts_above(cs, xs, l as int, t);
                lemma_parts_within(cs, xs, t);
            }
        }
        let grow = if y_len >= x_len { y_len - x_len } else { 0 };
        let shrink = if y_len >= x_len { 0 } else { x_len - y_len };
        let m = mid.len();
        let out = assemble(&self.chunks, f, l, mid, grow, shrink);
        let ghost old_chunks = self.chunks@;
        proof {
            lemma_assembled_parts(out@, old_chunks, f as int, l as int, mid@, d);
            assert forall|i: int| f <= i < f + m implies #[trigger] out@[i].rev_spec() == rev by {
                assert(out@[f + (i - f)] == mid@[i - f]);
            }
        }
        let shifted = count - l - 1;
        let invalidated_bytes = region_end - r0;
        self.source = y;
        self.chunks = out;
        Ok(Applied { rev, invalidated: m, invalidated_bytes, shifted })
    }
}


/// The partition of `x` at its chapter markers.
pub open spec fn partition_of(x: Seq<u8>) -> Seq<Part> {
    choose|cs: Seq<Part>| valid_partition(cs, x)
}

/// A partition of `x` is the partition of `x`.
proof fn lemma_partition_of(cs: Seq<Part>, x: Seq<u8>)
    requires
        valid_partition(cs, x),
    ensures
        partition_of(x) == cs,
{
    assert(exists|c: Seq<Part>| valid_partition(c, x));
    partition_is_unique(partition_of(x), cs, x);
}

/// What one edit of `x[s..e)` to `ins` costs: the chunks rebuilt, their
/// new size in bytes, and the chunks that only moved.
pub open spec fn edit_counts(x: Seq<u8>, s: int, e: int, ins: Seq<u8>) -> (int, int, int) {
    let ps = partition_of(x);
    let (f, l) = affected(ps, x, s, e);
    let d = ins.len() - (e - s);
    let k = ps.len() - l - 1;
    (partition_of(splice(x, s, e, ins)).len() - k - f, ps[l].2 + d - ps[f].1, k)
}

/// How far the edits of a batch before edit `j` move the ranges after them:
/// what they insert less what they remove.
pub open spec fn shift_of(es: Seq<Edit>, j: int) -> int
    decreases j,
{
    if j <= 0 || j > es.len() {
        0
    } else {
        shift_of(es, j - 1) + encode_utf8(es[j - 1].insert@).len() - (es[j - 1].range.end - es[j - 1].range.start)
    }
}

/// Whether `trail` is the sessions a batch passed through from `before` to
/// `after`: each step is edit `j` of the batch, moved by the edits before it,
/// done as one edit stamped with revision `rev` and answered with `outs[j]`.
pub open spec fn batch_trail(
    before: Session,
    after: Session,
    es: Seq<Edit>,
    rev: u64,
    trail: Seq<Session>,
    outs: Seq<Applied>,
) -> bool {
    &&& trail.len() == outs.len() + 1
    &&& outs.len() <= es.len()
    &&& trail[0].table() == before.table()
    &&& trail[0].bytes() == before.bytes()
    &&& trail[0].settings() == before.settings()
    &&& trail.last().table() == after.table()
    &&& trail.last().bytes() == after.bytes()
    &&& forall|j: int| 0 <= j < outs.len() ==> edit_done(
        trail[j],
        trail[j + 1],
        es[j].range.start + shift_of(es, j),
        es[j].range.end + shift_of(es, j),
        encode_utf8(es[j].insert@),
        rev,
        #[trigger] outs[j],
    )
}

/// The first edit of a batch that starts before the previous one ends, as
/// the refusal it earns.
pub open spec fn first_overlap(es: Seq<Edit>, i: int, previous_end: usize) -> Option<EditError>
    decreases es.len() - i,
{
    if i < 0 || i >= es.len() {
        None
    } else if es[i].range.start < previous_end {
        Some(EditError::Overlapping { previous_end, start: es[i].range.start })
    } else {
        first_overlap(es, i + 1, es[i].range.end)
    }
}

/// The batch `es` from edit `i` on, applied to `x`: each edit's range moved
/// by `shift`, the change in length the edits before it made, and the
/// costs summed (saturating) onto `acc`. Gives the text reached and either
/// the total cost or the refusal that stopped the batch.
pub open spec fn run_batch(x: Seq<u8>, es: Seq<Edit>, i: int, shift: int, acc: (usize, usize, usize))
    -> (Seq<u8>, Result<(usize, usize, usize), EditError>)
    decreases es.len() - i,
{
    if i < 0 || i >= es.len() {
        (x, Ok(acc))
    } else {
        let s = es[i].range.start + shift;
        let e = es[i].range.end + shift;
        let ins = encode_utf8(es[i].insert@);
        match refusal(x, s, e) {
            Some(err) => (x, Err(err)),
            None => {
                let c = edit_counts(x, s, e, ins);
                run_batch(
                    splice(x, s, e, ins),
                    es,
                    i + 1,
                    shift + ins.len() - (es[i].range.end - es[i].range.start),
                    (clamp_usize(acc.0 + c.0), clamp_usize(acc.1 + c.1), clamp_usize(acc.2 + c.2)),
                )
            },
        }
    }
}

/// With no overlap from edit `i` on, each edit starts at or after the
/// previous one's end.
proof fn lemma_no_overlap(es: Seq<Edit>, i: int, previous_end: usize)
    requires
        0 <= i <= es.len(),
        first_overlap(es, i, previous_end) is None,
    ensures
        i < es.len() ==> previous_end <= es[i].range.start,
        forall|j: int| i < j < es.len() ==> es[j - 1].range.end <= #[trigger] es[j].range.start,
    decreases es.len() - i,
{
    if i < es.len() {
        lemma_no_overlap(es, i + 1, es[i].range.end);
    }
}


impl Session {
    /// Replaces `range` with `insert`: a batch of one edit.
    pub fn edit(&mut self, range: ByteSpan, insert: &str) -> (r: Result<Applied, EditError>)
        requires
            old(self).wf(),
            old(self).revision() < u64::MAX,
        ensures
            final(self).wf(),
            final(self).revision() == old(self).revision() + 1,
            r.is_err() <==> refusal(old(self).bytes(), range.start as int, range.end as int) is Some,
            r matches Err(err) ==> refusal(old(self).bytes(), range.start as int, range.end as int) == Some(err)
                && final(self).text() == old(self).text() && final(self).table() == old(self).table()
                && final(self).settings() == old(self).settings(),
            r matches Ok(a) ==> edit_done(
                *old(self),
                *final(self),
                range.start as int,
                range.end as int,
                insert.spec_bytes(),
                (old(self).revision() + 1) as u64,
                a,
            ),
    {
        self.rev = self.rev + 1;
        let rev = self.rev;
        self.edit_one(range.start, range.end, insert, rev)
    }

    /// Applies a batch, each edit in the coordinates of the document before
    /// the batch. Edits must be ascending and must not overlap; that is
    /// checked before anything changes. Any other refusal stops the batch
    /// with the edits before it applied, so a caller that sees `Err` must
    /// resynchronise rather than retry.
    #[verifier::rlimit(40)]
    pub fn apply(&mut self, edits: &[Edit]) -> (r: Result<Applied, EditError>)
        requires
            old(self).wf(),
            old(self).revision() < u64::MAX,
        ensures
            final(self).wf(),
            final(self).settings() == old(self).settings(),
            first_overlap(edits@, 0, 0) matches Some(err) ==> r == Err::<Applied, EditError>(err)
                && *final(self) == *old(self),
            first_overlap(edits@, 0, 0) is None ==> ({
                let (y, out) = run_batch(old(self).bytes(), edits@, 0, 0, (0usize, 0usize, 0usize));
                &&& final(self).revision() == old(self).revision() + 1
                &&& final(self).bytes() == y
                &&& exists|trail: Seq<Session>, outs: Seq<Applied>| #[trigger] batch_trail(
                    *old(self), *final(self), edits@, (old(self).revision() + 1) as u64, trail, outs)
                    && (out is Ok ==> outs.len() == edits@.len())
                &&& match out {
                    Ok(c) => r == Ok::<Applied, EditError>(
                        (Applied { rev: (old(self).revision() + 1) as u64, invalidated: c.0, invalidated_bytes: c.1, shifted: c.2 }),
                    ),
                    Err(err) => r == Err::<Applied, EditError>(err),
                }
            }),
    {
        let n = edits.len();
        let mut previous_end: usize = 0;
        let mut i: usize = 0;
        while i < n
            invariant
                i <= n == edits@.len(),
                *self == *old(self),
                old(self).wf(),
                first_overlap(edits@, 0, 0) == first_overlap(edits@, i as int, previous_end),
            decreases n - i,
        {
            if edits[i].range.start < previous_end {
                return Err(EditError::Overlapping { previous_end, start: edits[i].range.start });
            }
            previous_end = edits[i].range.end;
            i += 1;
        }
        proof {
            lemma_no_overlap(edits@, 0, 0);
        }
        self.rev = self.rev + 1;
        let rev = self.rev;
        let ghost x0 = self.bytes();
        let orig_len = self.source.as_str().as_bytes().len();
        let mut invalidated: usize = 0;
        let mut invalidated_bytes: usize = 0;
        let mut shifted: usize = 0;
        let mut removed: usize = 0;
        let mut inserted: usize = 0;
        let mut j: usize = 0;
        let ghost mut trail: Seq<Session> = seq![*self];
        let ghost mut outs: Seq<Applied> = Seq::empty();
        assert(batch_trail(*old(self), *self, edits@, (old(self).revision() + 1) as u64, trail, outs));
        while j < n
            invariant
                j <= n == edits@.len(),
                outs.len() == j,
                trail.last() == *self,
                batch_trail(*old(self), *self, edits@, (old(self).revision() + 1) as u64, trail, outs),
                inserted - removed == shift_of(edits@, j as int),
                first_overlap(edits@, 0, 0) is None,
                self.wf(),
                self.revision() == rev,
                rev == old(self).revision() + 1,
                self.settings() == old(self).settings(),
                x0 == old(self).bytes(),
                orig_len == x0.len(),
                removed <= orig_len,
                self.bytes().len() == orig_len - removed + inserted,
                j > 0 ==> removed <= edits@[j - 1].range.end,
                j == 0 ==> removed == 0 && inserted == 0,
                forall|t: int| 0 < t < edits@.len() ==> edits@[t - 1].range.end <= #[trigger] edits@[t].range.start,
                run_batch(x0, edits@, 0, 0, (0usize, 0usize, 0usize))
                    == run_batch(self.bytes(), edits@, j as int, inserted - removed, (invalidated, invalidated_bytes, shifted)),
            decreases n - j,
        {
            let start = edits[j].range.start;
            let end = edits[j].range.end;
            let cur_len = self.source.as_str().as_bytes().len();
            let ghost xb = self.bytes();
            let ghost sh = inserted - removed;
            let ghost sp = start + sh;
            let ghost ep = end + sh;
            proof {
                if j > 0 {
                    assert(edits@[j - 1].range.end <= edits@[j as int].range.start);
                }
            }
            let base = start - removed;
            let (s_val, s_ok) = match base.checked_add(inserted) {
                Some(v) => (v, true),
                None => (usize::MAX, false),
            };
            let (e_val, e_ok) = if end >= removed {
                match (end - removed).checked_add(inserted) {
                    Some(v) => (v, true),
                    None => (usize::MAX, false),
                }
            } else if removed - end <= inserted {
                (inserted - (removed - end), true)
            } else {
                (0, false)
            };
            assert(s_val == clamp_usize(sp) && e_val == clamp_usize(ep));
            if !s_ok || !e_ok {
                assert(refusal(xb, sp, ep) == Some(EditError::OutOfBounds { range: ByteSpan { start: s_val, end: e_val }, len: cur_len }));
                assert(batch_trail(*old(self), *self, edits@, (old(self).revision() + 1) as u64, trail, outs));
                return Err(EditError::OutOfBounds { range: ByteSpan::new(s_val, e_val), len: cur_len });
            }
            let ghost before = *self;
            let ins = edits[j].insert.as_str();
            let one = self.edit_one(s_val, e_val, ins, rev);
            match one {
                Err(err) => {
                    assert(batch_trail(*old(self), *self, edits@, (old(self).revision() + 1) as u64, trail, outs));
                    return Err(err);
                },
                Ok(a) => {
                    proof {
                        assert(s_val == sp && e_val == ep);
                        let t2 = trail.push(*self);
                        let o2 = outs.push(a);
                        assert forall|t: int| 0 <= t < o2.len() implies edit_done(
                            t2[t],
                            t2[t + 1],
                            edits@[t].range.start + shift_of(edits@, t),
                            edits@[t].range.end + shift_of(edits@, t),
                            encode_utf8(edits@[t].insert@),
                            rev,
                            #[trigger] o2[t],
                        ) by {
                            if t < outs.len() {
                                assert(o2[t] == outs[t]);
                                assert(t2[t] == trail[t] && t2[t + 1] == trail[t + 1]);
                            } else {
                                assert(t2[t] == before);
                            }
                        }
                        trail = t2;
                        outs = o2;
                        lemma_partition_of(parts_of(before.table(), 0), before.bytes());
                        lemma_partition_of(parts_of(self.table(), 0), self.bytes());
                        let c = edit_counts(xb, sp, ep, ins.spec_bytes());
                        assert(c == (a.invalidated as int, a.invalidated_bytes as int, a.shifted as int));
                    }
                    invalidated = invalidated.saturating_add(a.invalidated);
                    invalidated_bytes = invalidated_bytes.saturating_add(a.invalidated_bytes);
                    shifted = shifted.saturating_add(a.shifted);
                    let new_len = self.source.as_str().as_bytes().len();
                    assert(new_len == self.bytes().len());
                    removed = removed + (end - start);
                    inserted = inserted + ins.as_bytes().len();
                },
            }
            j += 1;
        }
        assert(batch_trail(*old(self), *self, edits@, (old(self).revision() + 1) as u64, trail, outs));
        Ok(Applied { rev, invalidated, invalidated_bytes, shifted })
    }
}


/// What a refused edit says.
pub open spec fn edit_error_message(e: EditError) -> Seq<char> {
    match e {
        EditError::OutOfBounds { range, len } => "edit ByteSpan { start: "@ + decimal(range.start as nat) + ", end: "@
            + decimal(range.end as nat) + " } is outside a document of "@ + decimal(len as nat) + " bytes"@,
        EditError::NotOnCharBoundary { offset } => "edit offset "@ + decimal(offset as nat) + " falls inside a character"@,
        EditError::Overlapping { previous_end, start } => "edit at "@ + decimal(start as nat) + " overlaps the previous, ending "@
            + decimal(previous_end as nat),
    }
}

impl EditError {
    pub fn to_string(&self) -> (r: String)
        ensures
            r@ == edit_error_message(*self),
    {
        let mut s = String::new();
        match self {
            EditError::OutOfBounds { range, len } => {
                push_str(&mut s, "edit ByteSpan { start: ");
                push_decimal(&mut s, range.start as u64);
                push_str(&mut s, ", end: ");
                push_decimal(&mut s, range.end as u64);
                push_str(&mut s, " } is outside a document of ");
                push_decimal(&mut s, *len as u64);
                push_str(&mut s, " bytes");
                assert(Seq::<char>::empty() + "edit ByteSpan { start: "@ == "edit ByteSpan { start: "@);
            },
            EditError::NotOnCharBoundary { offset } => {
                push_str(&mut s, "edit offset ");
                push_decimal(&mut s, *offset as u64);
                push_str(&mut s, " falls inside a character");
                assert(Seq::<char>::empty() + "edit offset "@ == "edit offset "@);
            },
            EditError::Overlapping { previous_end, start } => {
                push_str(&mut s, "edit at ");
                push_decimal(&mut s, *start as u64);
                push_str(&mut s, " overlaps the previous, ending ");
                push_decimal(&mut s, *previous_end as u64);
                assert(Seq::<char>::empty() + "edit at "@ == "edit at "@);
            },
        }
        s
    }
}

/// Whether some chunk before chunk `i` carries chapter number `n`.
pub open spec fn number_seen(ps: Seq<Part>, i: int, n: u32) -> bool {
    exists|j: int| 0 <= j < i && #[trigger] ps[j].0 == Some(n)
}

/// A chapter number that appears more than once, reported at each
/// repetition: the span is the repeated marker's line.
pub open spec fn duplicate_chapter_diags(ps: Seq<Part>, x: Seq<u8>) -> Seq<DiagnosticView>
    decreases ps.len(),
{
    if ps.len() == 0 {
        Seq::empty()
    } else {
        let rest = duplicate_chapter_diags(ps.drop_last(), x);
        let c = ps.last();
        match c.0 {
            Some(n) => if number_seen(ps, ps.len() - 1, n) {
                rest.push(DiagnosticView {
                    code: DiagnosticCode::DuplicateChapter,
                    severity: Severity::Error,
                    span: ByteSpan { start: c.1 as usize, end: line_end_at(x, c.1) as usize },
                    message: "chapter "@ + decimal(n as nat) + " appears more than once"@,
                })
            } else {
                rest
            },
            None => rest,
        }
    }
}

/// Whether `v` holds `n`.
fn holds(v: &Vec<u32>, n: u32) -> (b: bool)
    ensures
        b == v@.contains(n),
{
    let mut i: usize = 0;
    while i < v.len()
        invariant
            i <= v@.len(),
            forall|j: int| 0 <= j < i ==> v@[j] != n,
        decreases v.len() - i,
    {
        if v[i] == n {
            return true;
        }
        i += 1;
    }
    false
}

impl Session {
    /// What no single chunk can see: chapter numbers that appear more than
    /// once, in chunk order.
    pub fn cross_chunk_diagnostics(&self) -> (r: Vec<Diagnostic>)
        requires
            self.wf(),
        ensures
            diag_views(r@) == duplicate_chapter_diags(parts_of(self.table(), 0), self.bytes()),
    {
        let ghost ps = parts_of(self.chunks@, 0);
        let ghost xs = self.bytes();
        let x = self.source.as_str().as_bytes();
        let mut seen: Vec<u32> = Vec::new();
        let mut out: Vec<Diagnostic> = Vec::new();
        let mut i: usize = 0;
        while i < self.chunks.len()
            invariant
                i <= self.chunks@.len(),
                ps == parts_of(self.chunks@, 0),
                xs == x@,
                valid_partition(ps, xs),
                forall|n: u32| seen@.contains(n) <==> number_seen(ps, i as int, n),
                diag_views(out@) == duplicate_chapter_diags(ps.take(i as int), xs),
            decreases self.chunks.len() - i,
        {
            let c = self.chunks[i];
            let ghost pre = ps.take(i as int);
            let ghost next = ps.take(i + 1);
            assert(next.drop_last() == pre);
            assert(next.last() == ps[i as int]);
            assert forall|n: u32| number_seen(next, i as int, n) <==> number_seen(ps, i as int, n) by {
                if number_seen(ps, i as int, n) {
                    let j = choose|j: int| 0 <= j < i && #[trigger] ps[j].0 == Some(n);
                    assert(next[j] == ps[j]);
                }
            }
            let ghost old_seen = seen@;
            assert(ps[i as int].0 == c.number);
            match c.number {
                Some(n) => {
                    if holds(&seen, n) {
                        proof {
                            lemma_parts_within(ps, xs, i as int);
                        }
                        let end = line_end(x, c.start);
                        let mut message = String::new();
                        push_str(&mut message, "chapter ");
                        push_decimal(&mut message, n as u64);
                        push_str(&mut message, " appears more than once");
                        assert(Seq::<char>::empty() + "chapter "@ == "chapter "@);
                        let d = Diagnostic {
                            code: DiagnosticCode::DuplicateChapter,
                            severity: Severity::Error,
                            span: ByteSpan::new(c.start, end),
                            message,
                        };
                        let ghost before = out@;
                        out.push(d);
                        assert(diag_views(out@) =~= diag_views(before).push(d@));
                    } else {
                        seen.push(n);
                        assert(seen@ == old_seen.push(n));
                    }
                },
                None => {},
            }
            proof {
                assert forall|m: u32| seen@.contains(m) <==> number_seen(ps, i + 1, m) by {
                    if c.number == Some(m) {
                        assert(ps[i as int].0 == Some(m));
                    }
                    if seen@ != old_seen {
                        assert(seen@.contains(m) <==> (old_seen.contains(m) || c.number == Some(m))) by {
                            if seen@.contains(m) && !old_seen.contains(m) {
                                let k = choose|k: int| 0 <= k < seen@.len() && seen@[k] == m;
                                if k < old_seen.len() {
                                    assert(old_seen[k] == m);
                                }
                            }
                            if old_seen.contains(m) {
                                let k = choose|k: int| 0 <= k < old_seen.len() && old_seen[k] == m;
                                assert(seen@[k] == m);
                            }
                            if c.number == Some(m) {
                                assert(seen@[old_seen.len() as int] == m);
                            }
                        }
                    }
                    if number_seen(ps, i + 1, m) {
                        let j = choose|j: int| 0 <= j < i + 1 && #[trigger] ps[j].0 == Some(m);
                        if j < i {
                            assert(number_seen(ps, i as int, m));
                        }
                    }
                    if number_seen(ps, i as int, m) {
                        let j = choose|j: int| 0 <= j < i && #[trigger] ps[j].0 == Some(m);
                        assert(number_seen(ps, i + 1, m));
                    }
                }
            }
            i += 1;
        }
        assert(ps.take(self.chunks@.len() as int) == ps);
        out
    }
}

/// However a session's table was reached, by a fresh split or by any
/// sequence of edits, it is the table a fresh split of its text gives:
/// two well-formed sessions over the same text have the same chunks.
pub proof fn tables_agree(a: Session, b: Session)
    requires
        a.wf(),
        b.wf(),
        a.text() == b.text(),
    ensures
        parts_of(a.table(), 0) == parts_of(b.table(), 0),
{
    partition_is_unique(parts_of(a.table(), 0), parts_of(b.table(), 0), a.bytes());
}


/// Whether `x[s..e)` lies in the body of chunk `i`: past its chapter line
/// (which ends with a newline), and, unless it is the last chunk, before the
/// line it ends with.
pub open spec fn within_body(ps: Seq<Part>, x: Seq<u8>, i: int, s: int, e: int) -> bool {
    &&& 0 <= i < ps.len()
    &&& ps[i].1 <= s <= e <= x.len()
    &&& i > 0 ==> line_end_at(x, ps[i].1) <= s && terminated(x, line_end_at(x, ps[i].1))
    &&& i + 1 < ps.len() ==> e < line_start_at(x, ps[i].2 - 1)
}

/// The chunk `index_at` finds for an offset inside chunk `i` is `i`.
proof fn lemma_index_at_inside(ps: Seq<Part>, x: Seq<u8>, o: int, i: int)
    requires
        valid_partition(ps, x),
        0 <= i < ps.len(),
        0 <= ps[i].1 <= o,
        i + 1 < ps.len() ==> o < ps[i + 1].1,
    ensures
        index_at(ps, o, ps.len() - 1) == i,
{
    lemma_index_at(ps, x, o, ps.len() - 1);
    let k = index_at(ps, o, ps.len() - 1);
    if k < i {
        assert(o < ps[i].1);
    } else if k > i {
        if i + 1 < k {
            lemma_starts_below(ps, x, i + 1, k);
        }
    }
}

/// An edit inside the body of one chapter touches that chapter's chunk
/// only: every chunk before it is kept as it was, and every chunk after it
/// is kept with its revision, moved by the change in length.
pub proof fn an_edit_inside_a_chapter_spares_the_others(
    before: Session,
    after: Session,
    s: int,
    e: int,
    ins: Seq<u8>,
    rev: u64,
    a: Applied,
    i: int,
)
    requires
        before.wf(),
        within_body(parts_of(before.table(), 0), before.bytes(), i, s, e),
        edit_done(before, after, s, e, ins, rev, a),
    ensures
        a.shifted == before.table().len() - 1 - i,
        a.shifted < after.table().len(),
        forall|j: int| 0 <= j < i ==> #[trigger] after.table()[j] == before.table()[j],
        forall|j: int| 0 <= j < a.shifted ==> ({
            let o = before.table()[i + 1 + j];
            let c = #[trigger] after.table()[after.table().len() - a.shifted + j];
            &&& c@ == (o@.0, o@.1 + ins.len() - (e - s), o@.2 + ins.len() - (e - s))
            &&& c.rev_spec() == o.rev_spec()
        }),
{
    let ps = parts_of(before.table(), 0);
    let x = before.bytes();
    let n = ps.len();
    reveal(vp_shape);
    reveal(vp_sizes);
    lemma_starts_nonneg(ps, x, i);
    if i + 1 < n {
        lemma_line_start_le(x, ps[i].2 - 1);
        assert(ps[i + 1].1 == ps[i].2);
        assert(ps[i].1 < ps[i].2);
    }
    lemma_index_at_inside(ps, x, s, i);
    lemma_index_at_inside(ps, x, e, i);
    assert(affected(ps, x, s, e) == (i, i));
    let m = after.table().len();
    assert forall|j: int| 0 <= j < a.shifted implies ({
        let o = before.table()[i + 1 + j];
        let c = #[trigger] after.table()[after.table().len() - a.shifted + j];
        &&& c@ == (o@.0, o@.1 + ins.len() - (e - s), o@.2 + ins.len() - (e - s))
        &&& c.rev_spec() == o.rev_spec()
    }) by {
        let t = m - a.shifted + j;
        assert(t - (m - a.shifted) + i + 1 == i + 1 + j);
    }
}

} // verus!
