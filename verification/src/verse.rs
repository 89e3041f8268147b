//! The verse index: what verses a document contains, and where.
//!
//! Verse numbering is not a sequence of integers. `\v 1-2` is a range, `\v 1a`
//! a segment of one verse, `\va 3\va*` an alternate number from another
//! versification, and `\vp ௩\vp*` the published number, in any script's
//! digits. Treating any of these as a plain number silently loses text.

use vstd::prelude::*;
use crate::diagnostic::{Diagnostic, DiagnosticCode, DiagnosticView, Severity};
use crate::fmt::{decimal, push_char, push_decimal, push_str};
use crate::node::{first_attribute, nodes_of, preorder, preorder_all, Node, NodeKind};
use crate::span::ByteSpan;
use crate::text::{chars_of, trim_bounds, trim_chars};
use crate::unicode::{alphabetic, is_alphabetic, is_numeric, numeric};
use crate::version::{all_digits, digits_value, find_char, find_in, is_digit, lemma_digits_grow};

verus! {

/// A verse number: a range with an optional segment letter. A single verse
/// is a range of one.
#[derive(Debug, Clone, Copy, PartialEq, Eq, Structural, PartialOrd, Ord, Hash)]
pub struct VerseId {
    pub start: u16,
    pub end: u16,
    /// The `a` in `\v 1a`.
    pub segment: Option<char>,
}

/// What `u16::from_str` gives for text that must be ASCII digits only.
pub open spec fn parse_ascii_u16(cs: Seq<char>) -> Option<u16> {
    if all_digits(cs) && digits_value(cs) <= 65535 {
        Some(digits_value(cs) as u16)
    } else {
        None
    }
}

/// `1`, `1-2`, `1a` or `1-2a`, after trimming white space. The segment is a
/// final alphabetic character of any script; the numbers are ASCII digits,
/// each side of the `-` trimmed; a reversed range is refused.
pub open spec fn parse_verse_id(text: Seq<char>) -> Option<VerseId> {
    let t = trim_chars(text);
    if t.len() == 0 {
        None
    } else {
        let has_segment = alphabetic(t.last());
        let numbers = if has_segment { t.drop_last() } else { t };
        let segment = if has_segment { Some(t.last()) } else { None };
        let first = match find_char(numbers, '-') {
            Some(i) => trim_chars(numbers.take(i)),
            None => numbers,
        };
        let second = match find_char(numbers, '-') {
            Some(i) => trim_chars(numbers.skip(i + 1)),
            None => numbers,
        };
        match (parse_ascii_u16(first), parse_ascii_u16(second)) {
            (Some(start), Some(end)) => if start <= end {
                Some(VerseId { start, end, segment })
            } else {
                None
            },
            _ => None,
        }
    }
}

/// Whether two verse numbers cover a number in common: the same segment (or
/// neither has one) and intersecting ranges.
pub open spec fn verses_overlap(a: VerseId, b: VerseId) -> bool {
    a.segment == b.segment && a.start <= b.end && b.start <= a.end
}

/// How a verse number is written: `1`, `1-2`, then any segment letter.
pub open spec fn verse_text(v: VerseId) -> Seq<char> {
    let numbers = if v.start == v.end {
        decimal(v.start as nat)
    } else {
        decimal(v.start as nat) + "-"@ + decimal(v.end as nat)
    };
    match v.segment {
        Some(c) => numbers.push(c),
        None => numbers,
    }
}

/// A character outside ASCII.
pub open spec fn non_ascii(c: char) -> bool {
    c as u32 >= 128
}

/// Whether text holds a numeric character from outside ASCII.
pub open spec fn has_non_ascii_digit(cs: Seq<char>) -> bool {
    exists|i: int| 0 <= i < cs.len() && non_ascii(cs[i]) && numeric(#[trigger] cs[i])
}

/// `u16::from_str` over `cs[lo..hi)`, accepting ASCII digits only.
fn parse_ascii_in(cs: &Vec<char>, lo: usize, hi: usize) -> (r: Option<u16>)
    requires
        lo <= hi <= cs@.len(),
    ensures
        r == parse_ascii_u16(cs@.subrange(lo as int, hi as int)),
{
    let ghost digits = cs@.subrange(lo as int, hi as int);
    if lo == hi {
        return None;
    }
    let mut i = lo;
    let mut value: u32 = 0;
    assert(cs@.subrange(lo as int, lo as int) == Seq::<char>::empty());
    while i < hi
        invariant
            lo <= i <= hi <= cs@.len(),
            digits == cs@.subrange(lo as int, hi as int),
            digits.len() > 0,
            forall|j: int| lo <= j < i ==> is_digit(#[trigger] cs@[j]),
            value == digits_value(cs@.subrange(lo as int, i as int)),
            value <= 65535,
        decreases hi - i,
    {
        let c = cs[i];
        if !('0' <= c && c <= '9') {
            let ghost k: int = i - lo;
            assert(!is_digit(digits[k]));
            return None;
        }
        let d: u32 = (c as u32) - 48;
        assert(cs@.subrange(lo as int, i + 1).drop_last() == cs@.subrange(lo as int, i as int));
        let next = value * 10 + d;
        if next > 65535 {
            proof {
                assert(digits.take(i + 1 - lo) == cs@.subrange(lo as int, i + 1));
                if all_digits(digits) {
                    lemma_digits_grow(digits, (i + 1 - lo) as int);
                }
            }
            return None;
        }
        value = next;
        i += 1;
    }
    assert(cs@.subrange(lo as int, hi as int) == digits);
    assert forall|j: int| 0 <= j < digits.len() implies is_digit(#[trigger] digits[j]) by {
        assert(digits[j] == cs@[lo + j]);
    }
    Some(value as u16)
}

impl VerseId {
    /// The range of one verse.
    pub fn single(number: u16) -> (v: Self)
        ensures
            v.start == number,
            v.end == number,
            v.segment is None,
    {
        VerseId { start: number, end: number, segment: None }
    }

    /// Parses `1`, `1-2`, `1a` or `1-2a`; `None` for anything else,
    /// including non-ASCII digits.
    pub fn parse(text: &str) -> (r: Option<Self>)
        ensures
            r == parse_verse_id(text@),
    {
        let cs = chars_of(text);
        let (a, b) = trim_bounds(&cs, 0, cs.len());
        assert(cs@.subrange(0, cs@.len() as int) == text@);
        let ghost t = cs@.subrange(a as int, b as int);
        if a == b {
            return None;
        }
        let last = cs[b - 1];
        let alpha = is_alphabetic(last);
        let nb = if alpha { b - 1 } else { b };
        let segment = if alpha { Some(last) } else { None };
        let ghost numbers = cs@.subrange(a as int, nb as int);
        assert(t.last() == last);
        assert(alpha ==> t.drop_last() == numbers);
        let dash = find_in(&cs, '-', a, nb);
        let (s, e) = if dash < nb {
            let (f0, f1) = trim_bounds(&cs, a, dash);
            let (s0, s1) = trim_bounds(&cs, dash + 1, nb);
            assert(numbers.take(dash - a) == cs@.subrange(a as int, dash as int));
            assert(numbers.skip(dash - a + 1) == cs@.subrange(dash + 1, nb as int));
            (parse_ascii_in(&cs, f0, f1), parse_ascii_in(&cs, s0, s1))
        } else {
            let p = parse_ascii_in(&cs, a, nb);
            (p, p)
        };
        match (s, e) {
            (Some(start), Some(end)) => if start <= end {
                Some(VerseId { start, end, segment })
            } else {
                None
            },
            _ => None,
        }
    }

    /// Whether this covers `number`.
    pub fn contains(&self, number: u16) -> (b: bool)
        ensures
            b == (self.start <= number && number <= self.end),
    {
        self.start <= number && number <= self.end
    }

    /// Whether the two cover any number in common. Different segments never
    /// collide, including when one of them is absent.
    pub fn overlaps(&self, other: &Self) -> (b: bool)
        ensures
            b == verses_overlap(*self, *other),
    {
        let same = match (self.segment, other.segment) {
            (Some(x), Some(y)) => x == y,
            (None, None) => true,
            _ => false,
        };
        same && self.start <= other.end && other.start <= self.end
    }

    /// Appends how this verse number is written.
    pub fn push_to(&self, s: &mut String)
        ensures
            final(s)@ == old(s)@ + verse_text(*self),
    {
        push_decimal(s, self.start as u64);
        if self.start != self.end {
            push_str(s, "-");
            push_decimal(s, self.end as u64);
        }
        if let Some(c) = self.segment {
            push_char(s, c);
        }
        proof {
            let numbers = if self.start == self.end {
                decimal(self.start as nat)
            } else {
                decimal(self.start as nat) + "-"@ + decimal(self.end as nat)
            };
            assert(old(s)@ + numbers == (if self.start == self.end {
                old(s)@ + decimal(self.start as nat)
            } else {
                old(s)@ + decimal(self.start as nat) + "-"@ + decimal(self.end as nat)
            }));
            if let Some(c) = self.segment {
                assert(old(s)@ + numbers.push(c) == (old(s)@ + numbers).push(c));
            }
        }
    }

    /// How this verse number is written: `1`, `1-2`, `1a`.
    pub fn to_string(&self) -> (r: String)
        ensures
            r@ == verse_text(*self),
    {
        let mut s = String::new();
        self.push_to(&mut s);
        assert(Seq::<char>::empty() + verse_text(*self) == verse_text(*self));
        s
    }
}

/// Whether a `\v` number uses digits from a script other than ASCII.
pub fn non_ascii_digits(text: &str) -> (b: bool)
    ensures
        b == has_non_ascii_digit(text@),
{
    let cs = chars_of(text);
    let mut i: usize = 0;
    while i < cs.len()
        invariant
            i <= cs@.len(),
            cs@ == text@,
            forall|j: int| 0 <= j < i ==> !(non_ascii(cs@[j]) && numeric(#[trigger] cs@[j])),
        decreases cs.len() - i,
    {
        let c = cs[i];
        if (c as u32) >= 128 && is_numeric(c) {
            return true;
        }
        i += 1;
    }
    false
}

/// One verse, as it appears in the document.
#[derive(Debug, Clone, PartialEq, Eq)]
pub struct VerseEntry {
    pub chapter: u16,
    pub verse: VerseId,
    /// `\vp`: what the reader sees, in any script's digits.
    pub published: Option<String>,
    /// `\va`: the number in another versification.
    pub alternate: Option<VerseId>,
    /// The `\v` marker itself, in bytes.
    pub span: ByteSpan,
    /// The raw `\v` number, kept so a malformed one can still be reported.
    pub raw: String,
}

/// A verse entry as contracts speak of it.
pub struct EntryView {
    pub chapter: u16,
    pub verse: VerseId,
    pub published: Option<Seq<char>>,
    pub alternate: Option<VerseId>,
    pub span: ByteSpan,
    pub raw: Seq<char>,
}

impl View for VerseEntry {
    type V = EntryView;

    open spec fn view(&self) -> EntryView {
        EntryView {
            chapter: self.chapter,
            verse: self.verse,
            published: match self.published {
                Some(p) => Some(p@),
                None => None,
            },
            alternate: self.alternate,
            span: self.span,
            raw: self.raw@,
        }
    }
}

/// The views of a run of entries.
pub open spec fn entry_views(es: Seq<VerseEntry>) -> Seq<EntryView> {
    es.map_values(|e: VerseEntry| e@)
}

/// The value of a node's first attribute with this key.
pub open spec fn node_attribute(node: Node, key: Seq<char>) -> Option<Seq<char>> {
    match first_attribute(node.attributes@, key) {
        Some(i) => Some(node.attributes@[i].value@),
        None => None,
    }
}

/// The entry a `\v` node with this raw number and span makes in `chapter`.
/// A number that does not parse is still entered, as verse 0.
pub open spec fn entry_for(chapter: u16, raw: Seq<char>, span: ByteSpan, node: Node) -> EntryView {
    EntryView {
        chapter,
        verse: match parse_verse_id(raw) {
            Some(v) => v,
            None => VerseId { start: 0, end: 0, segment: None },
        },
        published: node_attribute(node, "pubnumber"@),
        alternate: match node_attribute(node, "altnumber"@) {
            Some(a) => parse_verse_id(a),
            None => None,
        },
        span,
        raw,
    }
}

/// One node's effect on the current chapter and the entries so far: a
/// chapter with an ASCII number moves the chapter; a verse with a number and
/// a span adds an entry; anything else changes nothing.
pub open spec fn index_step(state: (u16, Seq<EntryView>), node: Node) -> (u16, Seq<EntryView>) {
    match node.kind {
        NodeKind::Chapter => (
            match node_attribute(node, "number"@) {
                Some(n) => match parse_ascii_u16(n) {
                    Some(c) => c,
                    None => state.0,
                },
                None => state.0,
            },
            state.1,
        ),
        NodeKind::Verse => match (node_attribute(node, "number"@), node.span) {
            (Some(raw), Some(span)) => (state.0, state.1.push(entry_for(state.0, raw, span, node))),
            _ => state,
        },
        _ => state,
    }
}

/// The chapter and entries after walking these nodes from chapter 0.
pub open spec fn index_walk(walk: Seq<Node>) -> (u16, Seq<EntryView>)
    decreases walk.len(),
{
    if walk.len() == 0 {
        (0, Seq::empty())
    } else {
        index_step(index_walk(walk.drop_last()), walk.last())
    }
}

/// Whether an entry covers `chapter:verse`, ranges included.
pub open spec fn entry_covers(e: EntryView, chapter: u16, verse: u16) -> bool {
    e.chapter == chapter && e.verse.start <= verse && verse <= e.verse.end
}

/// The first entry from index `from` on that covers `chapter:verse`.
pub open spec fn first_covering(es: Seq<EntryView>, chapter: u16, verse: u16, from: int) -> Option<int>
    decreases es.len() - from,
{
    if from < 0 || from >= es.len() {
        None
    } else if entry_covers(es[from], chapter, verse) {
        Some(from)
    } else {
        first_covering(es, chapter, verse, from + 1)
    }
}

/// Every verse in a document, in source order.
#[derive(Debug, Clone)]
pub struct VerseIndex {
    entries: Vec<VerseEntry>,
}

impl View for VerseIndex {
    type V = Seq<EntryView>;

    closed spec fn view(&self) -> Seq<EntryView> {
        entry_views(self.entries@)
    }
}

impl Default for VerseIndex {
    fn default() -> (r: Self)
        ensures
            r@.len() == 0,
    {
        VerseIndex { entries: Vec::new() }
    }
}

/// Applies one node to the chapter and the entries, as [`index_step`] says.
fn apply_node(node: &Node, chapter: &mut u16, entries: &mut Vec<VerseEntry>)
    ensures
        (*final(chapter), entry_views(final(entries)@)) == index_step((*old(chapter), entry_views(old(entries)@)), *node),
{
    match node.kind {
        NodeKind::Chapter => {
            if let Some(n) = node.attribute("number") {
                let cs = chars_of(n);
                assert(cs@.subrange(0, cs@.len() as int) == n@);
                if let Some(c) = parse_ascii_in(&cs, 0, cs.len()) {
                    *chapter = c;
                }
            }
        },
        NodeKind::Verse => {
            if let Some(raw) = node.attribute("number") {
                if let Some(span) = &node.span {
                    let verse = match VerseId::parse(raw) {
                        Some(v) => v,
                        None => VerseId::single(0),
                    };
                    let published = match node.attribute("pubnumber") {
                        Some(p) => Some(p.to_owned()),
                        None => None,
                    };
                    let alternate = match node.attribute("altnumber") {
                        Some(a) => VerseId::parse(a),
                        None => None,
                    };
                    let entry = VerseEntry {
                        chapter: *chapter,
                        verse,
                        published,
                        alternate,
                        span: ByteSpan { start: span.start, end: span.end },
                        raw: raw.to_owned(),
                    };
                    let ghost before = entries@;
                    entries.push(entry);
                    assert(entry_views(entries@) =~= entry_views(before).push(entry@));
                }
            }
        },
        _ => {},
    }
}

impl VerseIndex {
    /// Builds the index from a document tree: every node of every root,
    /// parents before children, in order.
    pub fn build(nodes: &[Node]) -> (r: Self)
        ensures
            r@ == index_walk(preorder_all(nodes@)).1,
    {
        let mut entries: Vec<VerseEntry> = Vec::new();
        let mut chapter: u16 = 0;
        let mut r: usize = 0;
        assert(nodes@.take(0) == Seq::<Node>::empty());
        assert(entry_views(entries@) =~= Seq::<EntryView>::empty());
        while r < nodes.len()
            invariant
                r <= nodes@.len(),
                chapter == index_walk(preorder_all(nodes@.take(r as int))).0,
                entry_views(entries@) == index_walk(preorder_all(nodes@.take(r as int))).1,
            decreases nodes.len() - r,
        {
            let walk = nodes[r].descendants();
            let ghost prefix = preorder_all(nodes@.take(r as int));
            let mut j: usize = 0;
            assert(prefix + nodes_of(walk@).take(0) == prefix);
            while j < walk.len()
                invariant
                    j <= walk@.len(),
                    nodes_of(walk@) == preorder(nodes@[r as int]),
                    chapter == index_walk(prefix + nodes_of(walk@).take(j as int)).0,
                    entry_views(entries@) == index_walk(prefix + nodes_of(walk@).take(j as int)).1,
                decreases walk.len() - j,
            {
                let node = walk[j];
                apply_node(node, &mut chapter, &mut entries);
                proof {
                    let w = prefix + nodes_of(walk@).take(j + 1);
                    assert(w.drop_last() == prefix + nodes_of(walk@).take(j as int));
                    assert(w.last() == *node);
                }
                j += 1;
            }
            proof {
                assert(nodes_of(walk@).take(j as int) == nodes_of(walk@));
                let t = nodes@.take(r + 1);
                assert(t.drop_last() == nodes@.take(r as int));
                assert(t.last() == nodes@[r as int]);
            }
            r += 1;
        }
        assert(nodes@.take(nodes@.len() as int) == nodes@);
        VerseIndex { entries }
    }

    /// Every entry, in source order.
    pub fn entries(&self) -> (r: &[VerseEntry])
        ensures
            entry_views(r@) == self@,
    {
        self.entries.as_slice()
    }

    pub fn is_empty(&self) -> (b: bool)
        ensures
            b == (self@.len() == 0),
    {
        self.entries.len() == 0
    }

    /// The first entry covering `chapter:verse`, taking ranges into account.
    pub fn find(&self, chapter: u16, verse: u16) -> (r: Option<&VerseEntry>)
        ensures
            match r {
                Some(e) => first_covering(self@, chapter, verse, 0) matches Some(i) && e@ == self@[i],
                None => first_covering(self@, chapter, verse, 0) is None,
            },
    {
        let mut i: usize = 0;
        while i < self.entries.len()
            invariant
                i <= self.entries@.len(),
                self@ == entry_views(self.entries@),
                first_covering(self@, chapter, verse, 0) == first_covering(self@, chapter, verse, i as int),
            decreases self.entries.len() - i,
        {
            let e = &self.entries[i];
            if e.chapter == chapter && e.verse.contains(verse) {
                return Some(e);
            }
            i += 1;
        }
        None
    }
}

/// The views of a run of diagnostics.
pub open spec fn diag_views(ds: Seq<Diagnostic>) -> Seq<DiagnosticView> {
    ds.map_values(|d: Diagnostic| d@)
}

/// Whether an entry's raw number parsed.
pub open spec fn is_parsed(e: EntryView) -> bool {
    parse_verse_id(e.raw) is Some
}

/// What is wrong with one entry's raw number, if anything: non-ASCII digits
/// first, otherwise a number that does not parse.
pub open spec fn number_diag(e: EntryView) -> Seq<DiagnosticView> {
    if has_non_ascii_digit(e.raw) {
        seq![DiagnosticView {
            code: DiagnosticCode::NonAsciiVerseDigits,
            severity: Severity::Error,
            span: e.span,
            message: "\\v "@ + e.raw
                + " uses non-ASCII digits; USFM verse numbers are ASCII, and the published form belongs in \\vp"@,
        }]
    } else if !is_parsed(e) {
        seq![DiagnosticView {
            code: DiagnosticCode::MissingVerseNumber,
            severity: Severity::Error,
            span: e.span,
            message: "\\v "@ + e.raw + " is not a verse number"@,
        }]
    } else {
        Seq::empty()
    }
}

/// The number diagnostics of every entry, in source order.
pub open spec fn number_diags(es: Seq<EntryView>) -> Seq<DiagnosticView>
    decreases es.len(),
{
    if es.len() == 0 {
        Seq::empty()
    } else {
        number_diags(es.drop_last()) + number_diag(es.last())
    }
}

/// The entries of chapter `c` whose number parsed, in source order.
pub open spec fn chapter_group(es: Seq<EntryView>, c: u16) -> Seq<EntryView>
    decreases es.len(),
{
    if es.len() == 0 {
        Seq::empty()
    } else if es.last().chapter == c && is_parsed(es.last()) {
        chapter_group(es.drop_last(), c).push(es.last())
    } else {
        chapter_group(es.drop_last(), c)
    }
}

/// Whether some entry with a parsed number lies in chapter `c`.
pub open spec fn has_chapter(es: Seq<EntryView>, c: int) -> bool {
    exists|i: int| 0 <= i < es.len() && #[trigger] es[i].chapter == c && is_parsed(es[i])
}

/// The first entry before `g[k]`, searching from `j`, that overlaps it.
pub open spec fn earliest_overlap(g: Seq<EntryView>, k: int, j: int) -> Option<int>
    decreases k - j,
{
    if j >= k {
        None
    } else if verses_overlap(g[j].verse, g[k].verse) {
        Some(j)
    } else {
        earliest_overlap(g, k, j + 1)
    }
}

/// `c:v overlaps c:w, which appears earlier`, at the later entry.
pub open spec fn duplicate_diag(c: u16, e: EntryView, earlier: EntryView) -> DiagnosticView {
    DiagnosticView {
        code: DiagnosticCode::DuplicateVerse,
        severity: Severity::Error,
        span: e.span,
        message: decimal(c as nat) + ":"@ + verse_text(e.verse) + " overlaps "@ + decimal(c as nat) + ":"@
            + verse_text(earlier.verse) + ", which appears earlier"@,
    }
}

/// For each of the first `n` entries of a chapter's group, in order, a
/// duplicate diagnostic against the first earlier entry it overlaps.
pub open spec fn duplicate_diags(g: Seq<EntryView>, c: u16, n: int) -> Seq<DiagnosticView>
    decreases n,
{
    if n <= 0 {
        Seq::empty()
    } else {
        duplicate_diags(g, c, n - 1) + match earliest_overlap(g, n - 1, 0) {
            Some(j) => seq![duplicate_diag(c, g[n - 1], g[j])],
            None => Seq::empty(),
        }
    }
}

/// The highest verse number a group reaches; 0 for none.
pub open spec fn highest_end(g: Seq<EntryView>) -> nat
    decreases g.len(),
{
    if g.len() == 0 {
        0
    } else if highest_end(g.drop_last()) >= g.last().verse.end {
        highest_end(g.drop_last())
    } else {
        g.last().verse.end as nat
    }
}

/// Whether some entry of the group covers verse `n`.
pub open spec fn covered(g: Seq<EntryView>, n: int) -> bool {
    exists|i: int| 0 <= i < g.len() && #[trigger] g[i].verse.start <= n && n <= g[i].verse.end
}

/// `chapter c has no verse n`, as information, at the chapter's first entry.
pub open spec fn gap_diag(c: u16, n: nat, span: ByteSpan) -> DiagnosticView {
    DiagnosticView {
        code: DiagnosticCode::VerseGap,
        severity: Severity::Information,
        span,
        message: "chapter "@ + decimal(c as nat) + " has no verse "@ + decimal(n),
    }
}

/// A gap diagnostic for each verse from 1 to `m` that no entry covers.
pub open spec fn gap_diags(g: Seq<EntryView>, c: u16, m: int) -> Seq<DiagnosticView>
    decreases m,
{
    if m <= 0 {
        Seq::empty()
    } else if covered(g, m) {
        gap_diags(g, c, m - 1)
    } else {
        gap_diags(g, c, m - 1).push(gap_diag(c, m as nat, g[0].span))
    }
}

/// A chapter's duplicates, then its gaps up to the highest verse it reaches.
pub open spec fn chapter_diags(es: Seq<EntryView>, c: u16) -> Seq<DiagnosticView> {
    let g = chapter_group(es, c);
    duplicate_diags(g, c, g.len() as int) + gap_diags(g, c, highest_end(g) as int)
}

/// The diagnostics of every chapter from `lo` upwards that holds a parsed
/// entry, in ascending chapter order.
pub open spec fn chapters_from(es: Seq<EntryView>, lo: int) -> Seq<DiagnosticView>
    decreases 65536 - lo,
{
    if lo < 0 || lo >= 65536 {
        Seq::empty()
    } else if has_chapter(es, lo) {
        chapter_diags(es, lo as u16) + chapters_from(es, lo + 1)
    } else {
        chapters_from(es, lo + 1)
    }
}

/// Every numbering diagnostic, before ordering by position.
pub open spec fn numbering_diags(es: Seq<EntryView>) -> Seq<DiagnosticView> {
    number_diags(es) + chapters_from(es, 0)
}

/// `x` placed after every element that starts at or before it.
pub open spec fn insert_by_start(s: Seq<DiagnosticView>, x: DiagnosticView) -> Seq<DiagnosticView>
    decreases s.len(),
{
    if s.len() == 0 {
        seq![x]
    } else if s.last().span.start <= x.span.start {
        s.push(x)
    } else {
        insert_by_start(s.drop_last(), x).push(s.last())
    }
}

/// The stable sort by start offset.
pub open spec fn sort_by_start(s: Seq<DiagnosticView>) -> Seq<DiagnosticView>
    decreases s.len(),
{
    if s.len() == 0 {
        Seq::empty()
    } else {
        insert_by_start(sort_by_start(s.drop_last()), s.last())
    }
}

proof fn lemma_insert_at(s: Seq<DiagnosticView>, x: DiagnosticView, p: int)
    requires
        0 <= p <= s.len(),
        forall|i: int| p <= i < s.len() ==> #[trigger] s[i].span.start > x.span.start,
        p > 0 ==> s[p - 1].span.start <= x.span.start,
    ensures
        insert_by_start(s, x) == s.insert(p, x),
    decreases s.len(),
{
    if s.len() == 0 {
        assert(s.insert(0, x) =~= seq![x]);
    } else if p == s.len() {
        assert(s.insert(p, x) =~= s.push(x));
    } else {
        let t = s.drop_last();
        assert(s.last().span.start > x.span.start);
        lemma_insert_at(t, x, p);
        assert(s.insert(p, x) =~= t.insert(p, x).push(s.last()));
    }
}

/// Inserts `d` after every diagnostic that starts at or before it.
pub(crate) fn insert_sorted(out: &mut Vec<Diagnostic>, d: Diagnostic)
    ensures
        diag_views(final(out)@) == insert_by_start(diag_views(old(out)@), d@),
{
    let mut p = out.len();
    while p > 0 && out[p - 1].span.start > d.span.start
        invariant
            p <= out@.len(),
            forall|i: int| p <= i < out@.len() ==> #[trigger] out@[i].span.start > d.span.start,
        decreases p,
    {
        p -= 1;
    }
    let ghost before = diag_views(out@);
    proof {
        lemma_insert_at(before, d@, p as int);
    }
    out.insert(p, d);
    assert(diag_views(out@) =~= before.insert(p as int, d@));
}

/// The views of a run of entry references.
pub open spec fn ref_views(rs: Seq<&VerseEntry>) -> Seq<EntryView> {
    rs.map_values(|e: &VerseEntry| e@)
}

/// The diagnostic for one entry's raw number, if it has one.
fn number_diagnostic(e: &VerseEntry) -> (r: Option<Diagnostic>)
    ensures
        r matches Some(d) ==> number_diag(e@) == seq![d@],
        r is None ==> number_diag(e@) == Seq::<DiagnosticView>::empty(),
{
    let raw = e.raw.as_str();
    if non_ascii_digits(raw) {
        let mut m = String::new();
        push_str(&mut m, "\\v ");
        push_str(&mut m, raw);
        push_str(&mut m, " uses non-ASCII digits; USFM verse numbers are ASCII, and the published form belongs in \\vp");
        assert(Seq::<char>::empty() + "\\v "@ == "\\v "@);
        Some(Diagnostic {
            code: DiagnosticCode::NonAsciiVerseDigits,
            severity: Severity::Error,
            span: ByteSpan { start: e.span.start, end: e.span.end },
            message: m,
        })
    } else if VerseId::parse(raw).is_none() {
        let mut m = String::new();
        push_str(&mut m, "\\v ");
        push_str(&mut m, raw);
        push_str(&mut m, " is not a verse number");
        assert(Seq::<char>::empty() + "\\v "@ == "\\v "@);
        Some(Diagnostic {
            code: DiagnosticCode::MissingVerseNumber,
            severity: Severity::Error,
            span: ByteSpan { start: e.span.start, end: e.span.end },
            message: m,
        })
    } else {
        None
    }
}

/// `c:v overlaps c:w, which appears earlier`.
fn duplicate_diagnostic(c: u16, e: &VerseEntry, earlier: &VerseEntry) -> (d: Diagnostic)
    ensures
        d@ == duplicate_diag(c, e@, earlier@),
{
    let mut m = String::new();
    push_decimal(&mut m, c as u64);
    push_str(&mut m, ":");
    e.verse.push_to(&mut m);
    push_str(&mut m, " overlaps ");
    push_decimal(&mut m, c as u64);
    push_str(&mut m, ":");
    earlier.verse.push_to(&mut m);
    push_str(&mut m, ", which appears earlier");
    assert(Seq::<char>::empty() + decimal(c as nat) == decimal(c as nat));
    Diagnostic {
        code: DiagnosticCode::DuplicateVerse,
        severity: Severity::Error,
        span: ByteSpan { start: e.span.start, end: e.span.end },
        message: m,
    }
}

/// `chapter c has no verse n`.
fn gap_diagnostic(c: u16, n: u32, span: &ByteSpan) -> (d: Diagnostic)
    ensures
        d@ == gap_diag(c, n as nat, *span),
{
    let mut m = String::new();
    push_str(&mut m, "chapter ");
    push_decimal(&mut m, c as u64);
    push_str(&mut m, " has no verse ");
    push_decimal(&mut m, n as u64);
    assert(Seq::<char>::empty() + "chapter "@ == "chapter "@);
    Diagnostic {
        code: DiagnosticCode::VerseGap,
        severity: Severity::Information,
        span: ByteSpan { start: span.start, end: span.end },
        message: m,
    }
}

/// The lowest chapter at or above `lo` holding a parsed entry.
fn next_chapter(entries: &Vec<VerseEntry>, parsed: &Vec<bool>, lo: u32) -> (r: Option<u16>)
    requires
        parsed@.len() == entries@.len(),
        forall|k: int| 0 <= k < parsed@.len() ==> parsed@[k] == is_parsed(#[trigger] entries@[k]@),
    ensures
        r matches Some(c) ==> lo <= c && has_chapter(entry_views(entries@), c as int)
            && forall|ch: int| lo <= ch < c ==> !has_chapter(entry_views(entries@), ch),
        r is None ==> forall|ch: int| lo <= ch ==> !has_chapter(entry_views(entries@), ch),
{
    let ghost es = entry_views(entries@);
    let mut best: Option<u16> = None;
    let mut i: usize = 0;
    while i < entries.len()
        invariant
            i <= entries@.len(),
            es == entry_views(entries@),
            parsed@.len() == entries@.len(),
            forall|k: int| 0 <= k < parsed@.len() ==> parsed@[k] == is_parsed(#[trigger] entries@[k]@),
            forall|j: int| 0 <= j < i && is_parsed(es[j]) && es[j].chapter >= lo
                ==> best is Some && best->0 <= #[trigger] es[j].chapter,
            best matches Some(b) ==> lo <= b && exists|j: int| 0 <= j < i && is_parsed(es[j]) && #[trigger] es[j].chapter == b,
        decreases entries.len() - i,
    {
        let ch = entries[i].chapter;
        assert(es[i as int] == entries@[i as int]@);
        if parsed[i] && ch as u32 >= lo {
            let replace = match best {
                Some(b) => ch < b,
                None => true,
            };
            if replace {
                best = Some(ch);
                assert(is_parsed(es[i as int]) && es[i as int].chapter == ch);
            }
        }
        i += 1;
    }
    proof {
        match best {
            Some(b) => {
                assert forall|ch: int| lo <= ch < b implies !has_chapter(es, ch) by {
                    if has_chapter(es, ch) {
                        let j = choose|j: int| 0 <= j < es.len() && #[trigger] es[j].chapter == ch && is_parsed(es[j]);
                        assert(es[j].chapter >= lo);
                    }
                }
            },
            None => {
                assert forall|ch: int| lo <= ch implies !has_chapter(es, ch) by {
                    if has_chapter(es, ch) {
                        let j = choose|j: int| 0 <= j < es.len() && #[trigger] es[j].chapter == ch && is_parsed(es[j]);
                        assert(es[j].chapter >= lo);
                    }
                }
            },
        }
    }
    best
}

/// The entries of chapter `c` whose number parsed, in source order.
fn group_of<'a>(entries: &'a Vec<VerseEntry>, parsed: &Vec<bool>, c: u16) -> (g: Vec<&'a VerseEntry>)
    requires
        parsed@.len() == entries@.len(),
        forall|k: int| 0 <= k < parsed@.len() ==> parsed@[k] == is_parsed(#[trigger] entries@[k]@),
    ensures
        ref_views(g@) == chapter_group(entry_views(entries@), c),
{
    let ghost es = entry_views(entries@);
    let mut g: Vec<&'a VerseEntry> = Vec::new();
    let mut i: usize = 0;
    assert(es.take(0) == Seq::<EntryView>::empty());
    assert(ref_views(g@) =~= Seq::<EntryView>::empty());
    while i < entries.len()
        invariant
            i <= entries@.len(),
            es == entry_views(entries@),
            parsed@.len() == entries@.len(),
            forall|k: int| 0 <= k < parsed@.len() ==> parsed@[k] == is_parsed(#[trigger] entries@[k]@),
            ref_views(g@) == chapter_group(es.take(i as int), c),
        decreases entries.len() - i,
    {
        let e = &entries[i];
        proof {
            let t = es.take(i + 1);
            assert(t.drop_last() == es.take(i as int));
            assert(t.last() == e@);
        }
        if e.chapter == c && parsed[i] {
            let ghost before = g@;
            g.push(e);
            assert(ref_views(g@) =~= ref_views(before).push(e@));
        }
        i += 1;
    }
    assert(es.take(entries@.len() as int) == es);
    g
}

/// Whether some entry of the group covers verse `n`.
fn covers_any(g: &Vec<&VerseEntry>, n: u32) -> (b: bool)
    ensures
        b == covered(ref_views(g@), n as int),
{
    let ghost gv = ref_views(g@);
    let mut i: usize = 0;
    while i < g.len()
        invariant
            i <= g@.len(),
            gv == ref_views(g@),
            forall|j: int| 0 <= j < i ==> !(#[trigger] gv[j].verse.start <= n && n <= gv[j].verse.end),
        decreases g.len() - i,
    {
        let v = g[i].verse;
        assert(gv[i as int].verse == v);
        if v.start as u32 <= n && n <= v.end as u32 {
            return true;
        }
        i += 1;
    }
    false
}

/// Adds a chapter's duplicate diagnostics to the sorted output.
fn add_duplicates(g: &Vec<&VerseEntry>, c: u16, out: &mut Vec<Diagnostic>, Ghost(raw): Ghost<Seq<DiagnosticView>>)
    requires
        diag_views(old(out)@) == sort_by_start(raw),
    ensures
        diag_views(final(out)@) == sort_by_start(raw + duplicate_diags(ref_views(g@), c, g@.len() as int)),
{
    let ghost gv = ref_views(g@);
    let ghost mut cur = raw;
    let mut k: usize = 0;
    assert(raw + duplicate_diags(gv, c, 0) == raw);
    while k < g.len()
        invariant
            k <= g@.len(),
            gv == ref_views(g@),
            cur == raw + duplicate_diags(gv, c, k as int),
            diag_views(out@) == sort_by_start(cur),
        decreases g.len() - k,
    {
        let mut j: usize = 0;
        while j < k && !g[j].verse.overlaps(&g[k].verse)
            invariant
                j <= k < g@.len(),
                gv == ref_views(g@),
                earliest_overlap(gv, k as int, 0) == earliest_overlap(gv, k as int, j as int),
            decreases k - j,
        {
            assert(gv[j as int].verse == g@[j as int].verse && gv[k as int].verse == g@[k as int].verse);
            j += 1;
        }
        if j < k {
            assert(gv[j as int].verse == g@[j as int].verse && gv[k as int].verse == g@[k as int].verse);
            assert(earliest_overlap(gv, k as int, j as int) == Some(j as int));
            let d = duplicate_diagnostic(c, g[k], g[j]);
            assert(gv[k as int] == g@[k as int]@ && gv[j as int] == g@[j as int]@);
            proof {
                assert(cur.push(d@).drop_last() == cur);
                assert(raw + duplicate_diags(gv, c, k + 1) =~= cur.push(d@));
                cur = cur.push(d@);
            }
            insert_sorted(out, d);
        } else {
            assert(earliest_overlap(gv, k as int, k as int) is None);
            assert(raw + duplicate_diags(gv, c, k + 1) =~= cur);
        }
        k += 1;
    }
}

/// Adds a chapter's gap diagnostics to the sorted output.
fn add_gaps(g: &Vec<&VerseEntry>, c: u16, out: &mut Vec<Diagnostic>, Ghost(raw): Ghost<Seq<DiagnosticView>>)
    requires
        diag_views(old(out)@) == sort_by_start(raw),
    ensures
        diag_views(final(out)@) == sort_by_start(raw + gap_diags(ref_views(g@), c, highest_end(ref_views(g@)) as int)),
{
    let ghost gv = ref_views(g@);
    let mut h: u16 = 0;
    let mut i: usize = 0;
    assert(gv.take(0) == Seq::<EntryView>::empty());
    while i < g.len()
        invariant
            i <= g@.len(),
            gv == ref_views(g@),
            h == highest_end(gv.take(i as int)),
        decreases g.len() - i,
    {
        proof {
            let t = gv.take(i + 1);
            assert(t.drop_last() == gv.take(i as int));
            assert(t.last() == g@[i as int]@);
        }
        if g[i].verse.end > h {
            h = g[i].verse.end;
        }
        i += 1;
    }
    assert(gv.take(g@.len() as int) == gv);
    let ghost mut cur = raw;
    let mut m: u32 = 1;
    assert(raw + gap_diags(gv, c, 0) == raw);
    while m <= h as u32
        invariant
            1 <= m <= h as u32 + 1,
            gv == ref_views(g@),
            h == highest_end(gv),
            cur == raw + gap_diags(gv, c, m - 1),
            diag_views(out@) == sort_by_start(cur),
        decreases h as u32 + 1 - m,
    {
        if !covers_any(g, m) {
            assert(gv.len() > 0);
            let d = gap_diagnostic(c, m, &g[0].span);
            assert(gv[0] == g@[0]@);
            proof {
                assert(cur.push(d@).drop_last() == cur);
                assert(raw + gap_diags(gv, c, m as int) =~= cur.push(d@));
                cur = cur.push(d@);
            }
            insert_sorted(out, d);
        } else {
            assert(raw + gap_diags(gv, c, m as int) == cur);
        }
        m += 1;
    }
}

/// No chapter in `[lo, c)` holds a parsed entry, so the chapters from `lo`
/// are the chapters from `c`.
proof fn lemma_chapters_skip(es: Seq<EntryView>, lo: int, c: int)
    requires
        0 <= lo <= c <= 65536,
        forall|ch: int| lo <= ch < c ==> !has_chapter(es, ch),
    ensures
        chapters_from(es, lo) == chapters_from(es, c),
    decreases c - lo,
{
    if lo < c {
        lemma_chapters_skip(es, lo + 1, c);
    }
}

impl VerseIndex {
    /// What is wrong with the numbering: non-ASCII and malformed numbers;
    /// then, chapter by chapter in ascending order, each verse that overlaps
    /// an earlier one and each verse number the chapter leaves unused; all
    /// ordered by position, stably.
    pub fn diagnostics(&self) -> (r: Vec<Diagnostic>)
        ensures
            diag_views(r@) == sort_by_start(numbering_diags(self@)),
    {
        let ghost es = self@;
        let mut out: Vec<Diagnostic> = Vec::new();
        let ghost mut raw: Seq<DiagnosticView> = Seq::empty();
        let mut parsed: Vec<bool> = Vec::new();
        let mut i: usize = 0;
        assert(diag_views(out@) =~= Seq::<DiagnosticView>::empty());
        assert(es.take(0) == Seq::<EntryView>::empty());
        while i < self.entries.len()
            invariant
                i <= self.entries@.len(),
                es == entry_views(self.entries@),
                parsed@.len() == i,
                forall|k: int| 0 <= k < i ==> parsed@[k] == is_parsed(#[trigger] self.entries@[k]@),
                raw == number_diags(es.take(i as int)),
                diag_views(out@) == sort_by_start(raw),
            decreases self.entries.len() - i,
        {
            let e = &self.entries[i];
            proof {
                let t = es.take(i + 1);
                assert(t.drop_last() == es.take(i as int));
                assert(t.last() == e@);
            }
            match number_diagnostic(e) {
                Some(d) => {
                    proof {
                        assert(raw.push(d@).drop_last() == raw);
                        assert(raw + seq![d@] == raw.push(d@));
                        raw = raw.push(d@);
                    }
                    insert_sorted(&mut out, d);
                },
                None => {
                    assert(raw + Seq::<DiagnosticView>::empty() == raw);
                },
            }
            let ok = VerseId::parse(e.raw.as_str()).is_some();
            parsed.push(ok);
            i += 1;
        }
        assert(es.take(self.entries@.len() as int) == es);
        let mut lo: u32 = 0;
        assert(raw + chapters_from(es, 0) == numbering_diags(es));
        while lo < 65536
            invariant
                lo <= 65536,
                es == entry_views(self.entries@),
                parsed@.len() == self.entries@.len(),
                forall|k: int| 0 <= k < parsed@.len() ==> parsed@[k] == is_parsed(#[trigger] self.entries@[k]@),
                raw + chapters_from(es, lo as int) == numbering_diags(es),
                diag_views(out@) == sort_by_start(raw),
            decreases 65536 - lo,
        {
            match next_chapter(&self.entries, &parsed, lo) {
                None => {
                    proof {
                        lemma_chapters_skip(es, lo as int, 65536);
                    }
                    lo = 65536;
                },
                Some(c) => {
                    proof {
                        lemma_chapters_skip(es, lo as int, c as int);
                    }
                    let g = group_of(&self.entries, &parsed, c);
                    let ghost gv = ref_views(g@);
                    add_duplicates(&g, c, &mut out, Ghost(raw));
                    let ghost dups = duplicate_diags(gv, c, gv.len() as int);
                    add_gaps(&g, c, &mut out, Ghost(raw + dups));
                    proof {
                        let gaps = gap_diags(gv, c, highest_end(gv) as int);
                        assert(chapter_diags(es, c) == dups + gaps);
                        assert(chapters_from(es, c as int) == chapter_diags(es, c) + chapters_from(es, c + 1));
                        assert(raw + chapters_from(es, c as int) == (raw + dups + gaps) + chapters_from(es, c + 1));
                        raw = raw + dups + gaps;
                    }
                    lo = c as u32 + 1;
                },
            }
        }
        out
    }
}

/// Every verse number from 1 up to the highest a chapter reaches that no
/// verse of the chapter covers is reported, as information, naming the
/// chapter and the number: with `\\v 2` and `\\v 3` in chapter 1, verse 1 is
/// reported missing. What [`VerseIndex::diagnostics`] returns is this list,
/// ordered by position.
pub proof fn every_unused_verse_number_is_reported(es: Seq<EntryView>, c: u16, n: int)
    requires
        has_chapter(es, c as int),
        1 <= n <= highest_end(chapter_group(es, c)),
        !covered(chapter_group(es, c), n),
    ensures
        exists|i: int| 0 <= i < sort_by_start(numbering_diags(es)).len() && {
            let d = #[trigger] sort_by_start(numbering_diags(es))[i];
            &&& d.code == DiagnosticCode::VerseGap
            &&& d.severity == Severity::Information
            &&& d.message == "chapter "@ + decimal(c as nat) + " has no verse "@ + decimal(n as nat)
        },
{
    let g = chapter_group(es, c);
    let d = gap_diag(c, n as nat, g[0].span);
    lemma_gap_listed(g, c, highest_end(g) as int, n);
    assert(chapter_diags(es, c).contains(d)) by {
        let a = duplicate_diags(g, c, g.len() as int);
        let b = gap_diags(g, c, highest_end(g) as int);
        let k = choose|k: int| 0 <= k < b.len() && b[k] == d;
        assert((a + b)[a.len() + k] == d);
    }
    lemma_chapters_listed(es, 0, c, d);
    assert(numbering_diags(es).contains(d)) by {
        let a = number_diags(es);
        let b = chapters_from(es, 0);
        let k = choose|k: int| 0 <= k < b.len() && b[k] == d;
        assert((a + b)[a.len() + k] == d);
    }
    lemma_sort_keeps(numbering_diags(es), d);
    let out = sort_by_start(numbering_diags(es));
    let k = choose|k: int| 0 <= k < out.len() && out[k] == d;
    assert(out[k] == d);
}

proof fn lemma_gap_listed(g: Seq<EntryView>, c: u16, m: int, n: int)
    requires
        1 <= n <= m,
        !covered(g, n),
    ensures
        gap_diags(g, c, m).contains(gap_diag(c, n as nat, g[0].span)),
    decreases m,
{
    if m == n {
        let s = gap_diags(g, c, m);
        assert(s.last() == gap_diag(c, n as nat, g[0].span));
        assert(s[s.len() - 1] == s.last());
    } else {
        lemma_gap_listed(g, c, m - 1, n);
        let prev = gap_diags(g, c, m - 1);
        let k = choose|k: int| 0 <= k < prev.len() && prev[k] == gap_diag(c, n as nat, g[0].span);
        if !covered(g, m) {
            assert(gap_diags(g, c, m)[k] == prev[k]);
        }
    }
}

proof fn lemma_chapters_listed(es: Seq<EntryView>, lo: int, c: u16, d: DiagnosticView)
    requires
        0 <= lo <= c,
        has_chapter(es, c as int),
        chapter_diags(es, c).contains(d),
    ensures
        chapters_from(es, lo).contains(d),
    decreases c - lo,
{
    if lo == c {
        let a = chapter_diags(es, c);
        let b = chapters_from(es, lo + 1);
        let k = choose|k: int| 0 <= k < a.len() && a[k] == d;
        assert((a + b)[k] == d);
    } else {
        lemma_chapters_listed(es, lo + 1, c, d);
        let b = chapters_from(es, lo + 1);
        let k = choose|k: int| 0 <= k < b.len() && b[k] == d;
        if has_chapter(es, lo) {
            let a = chapter_diags(es, lo as u16);
            assert((a + b)[a.len() + k] == d);
        }
    }
}

proof fn lemma_insert_keeps(s: Seq<DiagnosticView>, x: DiagnosticView, y: DiagnosticView)
    requires
        s.contains(y) || y == x,
    ensures
        insert_by_start(s, x).contains(y),
    decreases s.len(),
{
    if s.len() == 0 {
        assert(insert_by_start(s, x)[0] == x);
    } else if s.last().span.start <= x.span.start {
        let t = s.push(x);
        if y == x {
            assert(t[s.len() as int] == x);
        } else {
            let k = choose|k: int| 0 <= k < s.len() && s[k] == y;
            assert(t[k] == y);
        }
    } else {
        let t = insert_by_start(s.drop_last(), x).push(s.last());
        if y == s.last() {
            assert(t[t.len() - 1] == y);
        } else {
            if y != x {
                let k = choose|k: int| 0 <= k < s.len() && s[k] == y;
                assert(k < s.len() - 1);
                assert(s.drop_last()[k] == y);
            }
            lemma_insert_keeps(s.drop_last(), x, y);
            let u = insert_by_start(s.drop_last(), x);
            let k = choose|k: int| 0 <= k < u.len() && u[k] == y;
            assert(t[k] == y);
        }
    }
}

/// Sorting by position loses nothing.
proof fn lemma_sort_keeps(s: Seq<DiagnosticView>, y: DiagnosticView)
    requires
        s.contains(y),
    ensures
        sort_by_start(s).contains(y),
    decreases s.len(),
{
    if y == s.last() {
        lemma_insert_keeps(sort_by_start(s.drop_last()), s.last(), y);
    } else {
        let k = choose|k: int| 0 <= k < s.len() && s[k] == y;
        assert(k < s.len() - 1);
        assert(s.drop_last()[k] == y);
        lemma_sort_keeps(s.drop_last(), y);
        lemma_insert_keeps(sort_by_start(s.drop_last()), s.last(), y);
    }
}

/// Whether a diagnostic, if it reports a gap, reports a real one: a verse
/// number from 1 up to the highest its chapter reaches that no verse of the
/// chapter covers.
pub open spec fn names_a_real_gap(es: Seq<EntryView>, d: DiagnosticView) -> bool {
    d.code == DiagnosticCode::VerseGap ==> exists|c: u16, n: int|
        #![trigger chapter_group(es, c), decimal(n as nat)]
        has_chapter(es, c as int)
        && 1 <= n <= highest_end(chapter_group(es, c))
        && !covered(chapter_group(es, c), n)
        && d.message == "chapter "@ + decimal(c as nat) + " has no verse "@ + decimal(n as nat)
}

/// No verse number that some verse covers is reported missing: every gap
/// [`VerseIndex::diagnostics`] reports is a number its chapter leaves unused.
pub proof fn only_unused_verse_numbers_are_reported(es: Seq<EntryView>)
    ensures
        forall|i: int| 0 <= i < sort_by_start(numbering_diags(es)).len()
            ==> names_a_real_gap(es, #[trigger] sort_by_start(numbering_diags(es))[i]),
{
    let s = numbering_diags(es);
    lemma_number_diags_no_gap(es);
    lemma_chapters_real(es, 0);
    assert forall|k: int| 0 <= k < s.len() implies names_a_real_gap(es, #[trigger] s[k]) by {
        let a = number_diags(es);
        if k < a.len() {
            assert(s[k] == a[k]);
        } else {
            assert(s[k] == chapters_from(es, 0)[k - a.len()]);
        }
    }
    lemma_sort_only(s, es);
}

proof fn lemma_number_diags_no_gap(es: Seq<EntryView>)
    ensures
        forall|k: int| 0 <= k < number_diags(es).len() ==> #[trigger] number_diags(es)[k].code != DiagnosticCode::VerseGap,
    decreases es.len(),
{
    if es.len() > 0 {
        lemma_number_diags_no_gap(es.drop_last());
        let a = number_diags(es.drop_last());
        let b = number_diag(es.last());
        assert forall|k: int| 0 <= k < number_diags(es).len() implies #[trigger] number_diags(es)[k].code != DiagnosticCode::VerseGap by {
            if k < a.len() {
                assert(number_diags(es)[k] == a[k]);
            } else {
                assert(number_diags(es)[k] == b[k - a.len()]);
            }
        }
    }
}

proof fn lemma_duplicates_no_gap(g: Seq<EntryView>, c: u16, n: int)
    ensures
        forall|k: int| 0 <= k < duplicate_diags(g, c, n).len() ==> #[trigger] duplicate_diags(g, c, n)[k].code == DiagnosticCode::DuplicateVerse,
    decreases n,
{
    if n > 0 {
        lemma_duplicates_no_gap(g, c, n - 1);
        let a = duplicate_diags(g, c, n - 1);
        assert forall|k: int| 0 <= k < duplicate_diags(g, c, n).len() implies #[trigger] duplicate_diags(g, c, n)[k].code == DiagnosticCode::DuplicateVerse by {
            if k < a.len() {
                assert(duplicate_diags(g, c, n)[k] == a[k]);
            }
        }
    }
}

proof fn lemma_gaps_real(es: Seq<EntryView>, c: u16, m: int)
    requires
        has_chapter(es, c as int),
        m <= highest_end(chapter_group(es, c)),
    ensures
        forall|k: int| 0 <= k < gap_diags(chapter_group(es, c), c, m).len()
            ==> names_a_real_gap(es, #[trigger] gap_diags(chapter_group(es, c), c, m)[k]),
    decreases m,
{
    let g = chapter_group(es, c);
    if m > 0 {
        lemma_gaps_real(es, c, m - 1);
        let a = gap_diags(g, c, m - 1);
        assert forall|k: int| 0 <= k < gap_diags(g, c, m).len() implies names_a_real_gap(es, #[trigger] gap_diags(g, c, m)[k]) by {
            if k < a.len() {
                assert(gap_diags(g, c, m)[k] == a[k]);
            } else {
                let d = gap_diags(g, c, m)[k];
                assert(d == gap_diag(c, m as nat, g[0].span));
                assert(has_chapter(es, c as int) && 1 <= m <= highest_end(chapter_group(es, c))
                    && !covered(chapter_group(es, c), m)
                    && d.message == "chapter "@ + decimal(c as nat) + " has no verse "@ + decimal(m as nat));
            }
        }
    }
}

proof fn lemma_chapters_real(es: Seq<EntryView>, lo: int)
    ensures
        forall|k: int| 0 <= k < chapters_from(es, lo).len() ==> names_a_real_gap(es, #[trigger] chapters_from(es, lo)[k]),
    decreases 65536 - lo,
{
    if 0 <= lo < 65536 {
        lemma_chapters_real(es, lo + 1);
        if has_chapter(es, lo) {
            let c = lo as u16;
            assert(c as int == lo);
            let g = chapter_group(es, c);
            let dup = duplicate_diags(g, c, g.len() as int);
            let gaps = gap_diags(g, c, highest_end(g) as int);
            let rest = chapters_from(es, lo + 1);
            lemma_duplicates_no_gap(g, c, g.len() as int);
            lemma_gaps_real(es, c, highest_end(g) as int);
            let all = chapters_from(es, lo);
            assert(all == dup + gaps + rest);
            assert forall|k: int| 0 <= k < all.len() implies names_a_real_gap(es, #[trigger] all[k]) by {
                if k < dup.len() {
                    assert(all[k] == dup[k]);
                } else if k < dup.len() + gaps.len() {
                    assert(all[k] == gaps[k - dup.len()]);
                } else {
                    assert(all[k] == rest[k - dup.len() - gaps.len()]);
                }
            }
        } else {
            assert(chapters_from(es, lo) == chapters_from(es, lo + 1));
        }
    }
}

proof fn lemma_insert_only(t: Seq<DiagnosticView>, x: DiagnosticView, y: DiagnosticView)
    requires
        insert_by_start(t, x).contains(y),
    ensures
        t.contains(y) || y == x,
    decreases t.len(),
{
    if t.len() > 0 && !(t.last().span.start <= x.span.start) {
        let u = insert_by_start(t.drop_last(), x);
        let r = u.push(t.last());
        let k = choose|k: int| 0 <= k < r.len() && r[k] == y;
        if k < u.len() {
            assert(u[k] == y);
            lemma_insert_only(t.drop_last(), x, y);
            if y != x {
                let j = choose|j: int| 0 <= j < t.drop_last().len() && t.drop_last()[j] == y;
                assert(t[j] == y);
            }
        } else {
            assert(t[t.len() - 1] == y);
        }
    } else if t.len() > 0 {
        let r = t.push(x);
        let k = choose|k: int| 0 <= k < r.len() && r[k] == y;
        if k < t.len() {
            assert(t[k] == y);
        }
    }
}

proof fn lemma_sort_only(s: Seq<DiagnosticView>, es: Seq<EntryView>)
    requires
        forall|k: int| 0 <= k < s.len() ==> names_a_real_gap(es, #[trigger] s[k]),
    ensures
        forall|k: int| 0 <= k < sort_by_start(s).len() ==> names_a_real_gap(es, #[trigger] sort_by_start(s)[k]),
    decreases s.len(),
{
    if s.len() > 0 {
        let p = s.drop_last();
        assert forall|k: int| 0 <= k < p.len() implies names_a_real_gap(es, #[trigger] p[k]) by {
            assert(p[k] == s[k]);
        }
        lemma_sort_only(p, es);
        let t = sort_by_start(p);
        let r = sort_by_start(s);
        assert forall|k: int| 0 <= k < r.len() implies names_a_real_gap(es, #[trigger] r[k]) by {
            let y = r[k];
            assert(insert_by_start(t, s.last()).contains(y));
            lemma_insert_only(t, s.last(), y);
            if y != s.last() {
                let j = choose|j: int| 0 <= j < t.len() && t[j] == y;
                assert(names_a_real_gap(es, t[j]));
            } else {
                assert(names_a_real_gap(es, s[s.len() - 1]));
            }
        }
    }
}

/// The highest verse a chapter reaches is the largest end of any of its
/// verses, and 0 for a chapter with none.
pub proof fn the_highest_verse_is_the_largest_end(g: Seq<EntryView>)
    ensures
        forall|i: int| 0 <= i < g.len() ==> #[trigger] g[i].verse.end <= highest_end(g),
        g.len() == 0 ==> highest_end(g) == 0,
        g.len() > 0 ==> exists|i: int| 0 <= i < g.len() && #[trigger] g[i].verse.end == highest_end(g),
    decreases g.len(),
{
    if g.len() > 0 {
        let p = g.drop_last();
        the_highest_verse_is_the_largest_end(p);
        assert forall|i: int| 0 <= i < g.len() implies #[trigger] g[i].verse.end <= highest_end(g) by {
            if i < p.len() {
                assert(p[i] == g[i]);
            }
        }
        if highest_end(p) >= g.last().verse.end && p.len() > 0 {
            let j = choose|j: int| 0 <= j < p.len() && #[trigger] p[j].verse.end == highest_end(p);
            assert(g[j] == p[j]);
        } else {
            assert(g[g.len() - 1].verse.end == highest_end(g));
        }
    }
}

} // verus!
