//! The normalization index: finding text that is spelled differently.
//!
//! Text circulates in both NFC and NFD, and the buffer is never normalized,
//! because a file in NFD must save as NFD. So: normalize for comparison,
//! never for storage. The index holds an NFC copy with a map back to the raw
//! text, one row per segment, a starter and the marks after it, since NFC
//! composes within such a segment and never across the next starter.

use vstd::prelude::*;
use vstd::string::StringSliceAdditionalSpecFns;
use vstd::utf8::encode_utf8;
use crate::fmt::push_str;
use crate::span::ByteSpan;
use crate::text::{byte_offset, chars_of, len_utf8, lemma_byte_offset_step, lemma_offsets_grow, str_len, string_from};

verus! {

/// The canonical combining class `unicode_normalization` gives a character.
pub uninterp spec fn combining_class(c: char) -> u8;

/// The NFC form `unicode_normalization` gives a run of characters.
pub uninterp spec fn nfc(cs: Seq<char>) -> Seq<char>;

/// Calls `unicode_normalization::char::canonical_combining_class`. Its
/// result is named rather than stated: it is a Unicode data lookup.
#[verifier::external_body]
fn canonical_combining_class(c: char) -> (r: u8)
    ensures
        r == combining_class(c),
{
    unicode_normalization::char::canonical_combining_class(c)
}

/// Calls `UnicodeNormalization::nfc` on a string and collects the result.
/// Named rather than stated: it is the Unicode normalization algorithm.
#[verifier::external_body]
fn nfc_string(s: &str) -> (r: String)
    ensures
        r@ == nfc(s@),
{
    unicode_normalization::UnicodeNormalization::nfc(s).collect()
}

/// Calls `unicode_normalization::is_nfc`, which its documentation calls an
/// authoritative check: true exactly when the text is its own NFC form.
#[verifier::external_body]
fn is_nfc(s: &str) -> (b: bool)
    ensures
        b == (nfc(s@) == s@),
{
    unicode_normalization::is_nfc(s)
}

/// One starter and its following marks, in both spellings, in bytes.
#[derive(Debug, Clone, Copy, PartialEq, Eq, Structural)]
pub struct Segment {
    pub raw_start: usize,
    pub raw_len: usize,
    pub normalized_start: usize,
    pub normalized_len: usize,
}

/// An NFC view of some text, with the map back to it.
#[derive(Debug)]
pub struct NormalizedIndex {
    normalized: String,
    segments: Vec<Segment>,
    already_nfc: bool,
}

impl NormalizedIndex {
    /// Every segment's raw end is a byte offset, so it fits a `usize`.
    #[verifier::type_invariant]
    closed spec fn segments_fit(&self) -> bool {
        forall|i: int| 0 <= i < self.segments@.len()
            ==> #[trigger] self.segments@[i].raw_start + self.segments@[i].raw_len <= usize::MAX
    }
}

impl Clone for NormalizedIndex {
    fn clone(&self) -> (r: Self)
        ensures
            r@ == self@,
    {
        proof {
            use_type_invariant(self);
        }
        let segments = self.segments.clone();
        assert(segments@ =~= self.segments@);
        NormalizedIndex { normalized: self.normalized.clone(), segments, already_nfc: self.already_nfc }
    }
}

/// The index as contracts speak of it.
pub struct IndexView {
    pub normalized: Seq<char>,
    pub segments: Seq<Segment>,
    pub already_nfc: bool,
}

impl View for NormalizedIndex {
    type V = IndexView;

    closed spec fn view(&self) -> IndexView {
        IndexView { normalized: self.normalized@, segments: self.segments@, already_nfc: self.already_nfc }
    }
}

impl Default for NormalizedIndex {
    fn default() -> (r: Self)
        ensures
            r@.normalized.len() == 0,
            r@.segments.len() == 0,
            !r@.already_nfc,
    {
        NormalizedIndex { normalized: String::new(), segments: Vec::new(), already_nfc: false }
    }
}

/// The text normalized so far, the segments closed so far, and where the
/// open segment begins.
pub type ScanState = (Seq<char>, Seq<Segment>, int);

/// Closes the open segment at character index `end`: its NFC form is
/// appended, and its row records both spellings' offsets and lengths.
pub open spec fn close_segment(cs: Seq<char>, st: ScanState, end: int) -> ScanState {
    let piece = nfc(cs.subrange(st.2, end));
    (
        st.0 + piece,
        st.1.push(Segment {
            raw_start: byte_offset(cs, st.2) as usize,
            raw_len: (byte_offset(cs, end) - byte_offset(cs, st.2)) as usize,
            normalized_start: encode_utf8(st.0).len() as usize,
            normalized_len: encode_utf8(piece).len() as usize,
        }),
        end,
    )
}

/// The state after the first `k` characters (at least one): a character of
/// combining class zero, a starter, closes the segment before it.
pub open spec fn scan(cs: Seq<char>, k: int) -> ScanState
    decreases k,
{
    if k <= 1 {
        (Seq::empty(), Seq::empty(), 0)
    } else if combining_class(cs[k - 1]) == 0 {
        close_segment(cs, scan(cs, k - 1), k - 1)
    } else {
        scan(cs, k - 1)
    }
}

/// The index of a text: segments split before each starter, each mapped to
/// its NFC form; and whether the text was NFC already.
pub open spec fn index_of(cs: Seq<char>) -> IndexView {
    if cs.len() == 0 {
        IndexView { normalized: Seq::empty(), segments: Seq::empty(), already_nfc: nfc(cs) == cs }
    } else {
        let st = close_segment(cs, scan(cs, cs.len() as int), cs.len() as int);
        IndexView { normalized: st.0, segments: st.1, already_nfc: nfc(cs) == cs }
    }
}

/// The last segment among the first `n` whose normalized start is at or
/// before `off`.
pub open spec fn last_segment_by(segs: Seq<Segment>, off: usize, n: int) -> Option<int>
    decreases n,
{
    if n <= 0 || n > segs.len() {
        None
    } else if segs[n - 1].normalized_start <= off {
        Some(n - 1)
    } else {
        last_segment_by(segs, off, n - 1)
    }
}

/// The segment containing a normalized offset.
pub open spec fn segment_at(segs: Seq<Segment>, off: usize) -> Option<int> {
    last_segment_by(segs, off, segs.len() as int)
}

/// A normalized byte range mapped back to the raw text, widened to whole
/// segments.
pub open spec fn to_raw(segs: Seq<Segment>, start: usize, end: usize) -> Option<ByteSpan> {
    let last_off = if end >= 1 { (end - 1) as usize } else { 0usize };
    match (segment_at(segs, start), segment_at(segs, last_off)) {
        (Some(f), Some(l)) => Some(ByteSpan {
            start: segs[f].raw_start,
            end: (segs[l].raw_start + segs[l].raw_len) as usize,
        }),
        _ => None,
    }
}

/// Whether `needle` occurs in `t` at character index `p`.
pub open spec fn occurs_at(t: Seq<char>, needle: Seq<char>, p: int) -> bool {
    0 <= p && p + needle.len() <= t.len() && t.subrange(p, p + needle.len()) == needle
}

/// The raw spans of the non-overlapping occurrences of `needle` at or after
/// character index `from` of the normalized text, leftmost first.
pub open spec fn spans_from(v: IndexView, needle: Seq<char>, from: int) -> Seq<ByteSpan>
    decreases v.normalized.len() - from,
{
    if from < 0 || from >= v.normalized.len() || needle.len() == 0 {
        Seq::empty()
    } else if occurs_at(v.normalized, needle, from) {
        let hit = to_raw(
            v.segments,
            byte_offset(v.normalized, from) as usize,
            byte_offset(v.normalized, from + needle.len()) as usize,
        );
        (match hit {
            Some(span) => seq![span],
            None => Seq::empty(),
        }) + spans_from(v, needle, from + needle.len())
    } else {
        spans_from(v, needle, from + 1)
    }
}

/// Closes the open segment `cs[start..end)`, whose raw byte offsets are
/// `start_off` and `end_off`.
fn close_piece(
    cs: &Vec<char>,
    start: usize,
    end: usize,
    start_off: usize,
    end_off: usize,
    normalized: &mut String,
    segments: &mut Vec<Segment>,
)
    requires
        start <= end <= cs@.len(),
        start_off == byte_offset(cs@, start as int),
        end_off == byte_offset(cs@, end as int),
        start_off <= end_off,
    ensures
        final(segments)@ == old(segments)@.push(final(segments)@.last()),
        final(segments)@.last().raw_start + final(segments)@.last().raw_len == end_off,
        (final(normalized)@, final(segments)@, end as int) == close_segment(
            cs@,
            (old(normalized)@, old(segments)@, start as int),
            end as int,
        ),
{
    let piece = string_from(cs, start, end);
    let normal = nfc_string(piece.as_str());
    let normalized_start = str_len(normalized.as_str());
    let normalized_len = str_len(normal.as_str());
    push_str(normalized, normal.as_str());
    segments.push(Segment { raw_start: start_off, raw_len: end_off - start_off, normalized_start, normalized_len });
}

impl NormalizedIndex {
    /// Builds the index: one pass, and a second copy of the text.
    pub fn build(source: &str) -> (r: Self)
        ensures
            r@ == index_of(source@),
    {
        let already_nfc = is_nfc(source);
        let cs = chars_of(source);
        let _total = str_len(source);
        let n = cs.len();
        let mut normalized = String::new();
        let mut segments: Vec<Segment> = Vec::new();
        if n == 0 {
            assert(normalized@ == Seq::<char>::empty());
            return NormalizedIndex { normalized, segments, already_nfc };
        }
        proof {
            lemma_byte_offset_step(cs@, 0);
            assert(cs@.take(0) == Seq::<char>::empty());
        }
        let mut seg_start: usize = 0;
        let mut seg_off: usize = 0;
        let mut off: usize = len_utf8(cs[0]);
        let mut k: usize = 1;
        while k < n
            invariant
                1 <= k <= n == cs@.len(),
                cs@ == source@,
                encode_utf8(cs@).len() <= usize::MAX,
                off == byte_offset(cs@, k as int),
                seg_off == byte_offset(cs@, seg_start as int),
                seg_start < k,
                seg_off <= off,
                scan(cs@, k as int) == (normalized@, segments@, seg_start as int),
                forall|i: int| 0 <= i < segments@.len() ==> #[trigger] segments@[i].raw_start + segments@[i].raw_len <= usize::MAX,
            decreases n - k,
        {
            proof {
                lemma_byte_offset_step(cs@, k as int);
                lemma_offsets_grow(cs@, seg_start as int, k as int);
            }
            if canonical_combining_class(cs[k]) == 0 {
                close_piece(&cs, seg_start, k, seg_off, off, &mut normalized, &mut segments);
                seg_start = k;
                seg_off = off;
            }
            off = off + len_utf8(cs[k]);
            k += 1;
        }
        proof {
            lemma_offsets_grow(cs@, seg_start as int, n as int);
        }
        close_piece(&cs, seg_start, n, seg_off, off, &mut normalized, &mut segments);
        NormalizedIndex { normalized, segments, already_nfc }
    }

    /// The NFC text searches run against.
    pub fn text(&self) -> (r: &str)
        ensures
            r@ == self@.normalized,
    {
        self.normalized.as_str()
    }

    /// Whether the source was already NFC throughout. Reported, never acted
    /// on: the file's spelling is the file's business.
    pub fn is_normalized(&self) -> (b: bool)
        ensures
            b == self@.already_nfc,
    {
        self.already_nfc
    }

    /// The segment containing a normalized offset.
    fn segment_at(&self, offset: usize) -> (r: Option<usize>)
        ensures
            match r {
                Some(i) => segment_at(self@.segments, offset) == Some(i as int) && i < self@.segments.len(),
                None => segment_at(self@.segments, offset) is None,
            },
    {
        let mut n = self.segments.len();
        while n > 0 && self.segments[n - 1].normalized_start > offset
            invariant
                n <= self.segments@.len(),
                self@.segments == self.segments@,
                segment_at(self@.segments, offset) == last_segment_by(self@.segments, offset, n as int),
            decreases n,
        {
            n -= 1;
        }
        if n == 0 {
            None
        } else {
            Some(n - 1)
        }
    }

    /// Maps a range in the normalized text back to the raw text.
    fn to_raw(&self, start: usize, end: usize) -> (r: Option<ByteSpan>)
        ensures
            r == to_raw(self@.segments, start, end),
    {
        proof {
            use_type_invariant(self);
        }
        let first = match self.segment_at(start) {
            Some(i) => i,
            None => return None,
        };
        let last_off = if end >= 1 { end - 1 } else { 0 };
        let last = match self.segment_at(last_off) {
            Some(i) => i,
            None => return None,
        };
        let l = self.segments[last];
        assert(self@.segments[last as int] == l);
        Some(ByteSpan::new(self.segments[first].raw_start, l.raw_start + l.raw_len))
    }

    /// The raw offset a normalized offset corresponds to, snapped to the
    /// start of its segment.
    pub fn raw_offset(&self, normalized_offset: usize) -> (r: Option<usize>)
        ensures
            r == match segment_at(self@.segments, normalized_offset) {
                Some(i) => Some(self@.segments[i].raw_start),
                None => None,
            },
    {
        match self.segment_at(normalized_offset) {
            Some(i) => Some(self.segments[i].raw_start),
            None => None,
        }
    }
}

/// The span of a hit, if it has one, as a sequence.
pub open spec fn span_seq(hit: Option<ByteSpan>) -> Seq<ByteSpan> {
    match hit {
        Some(span) => seq![span],
        None => Seq::empty(),
    }
}

/// Whether `needle` occurs in `t` at index `p`.
fn occurs(t: &Vec<char>, needle: &Vec<char>, p: usize) -> (b: bool)
    requires
        p <= t@.len(),
    ensures
        b == occurs_at(t@, needle@, p as int),
{
    if needle.len() > t.len() - p {
        return false;
    }
    let mut i: usize = 0;
    while i < needle.len()
        invariant
            i <= needle@.len(),
            p + needle@.len() <= t.len(),
            forall|j: int| 0 <= j < i ==> t@[p + j] == needle@[j],
        decreases needle.len() - i,
    {
        if t[p + i] != needle[i] {
            assert(t@.subrange(p as int, p + needle@.len())[i as int] != needle@[i as int]);
            return false;
        }
        i += 1;
    }
    assert(t@.subrange(p as int, p + needle@.len()) =~= needle@);
    true
}

impl NormalizedIndex {
    /// Every occurrence of `query`, in raw coordinates. The query is
    /// normalized too, so an NFC query finds NFD text and the other way
    /// round; matches do not overlap, and widen to whole segments.
    pub fn find(&self, query: &str) -> (r: Vec<ByteSpan>)
        ensures
            query@.len() == 0 ==> r@.len() == 0,
            query@.len() > 0 ==> r@ == spans_from(self@, nfc(query@), 0),
    {
        let q = chars_of(query);
        if q.len() == 0 {
            return Vec::new();
        }
        let needle_text = nfc_string(query);
        let needle = chars_of(needle_text.as_str());
        let t = chars_of(self.normalized.as_str());
        let _bytes = str_len(self.normalized.as_str());
        let m = needle.len();
        let mut spans: Vec<ByteSpan> = Vec::new();
        if m == 0 {
            return spans;
        }
        let ghost v = self@;
        let mut from: usize = 0;
        let mut from_off: usize = 0;
        assert(t@.take(0) == Seq::<char>::empty());
        assert(spans@ + spans_from(v, needle@, 0) == spans_from(v, needle@, 0));
        while from < t.len()
            invariant
                from <= t@.len(),
                v == self@,
                t@ == v.normalized,
                needle@ == nfc(query@),
                m == needle@.len(),
                m > 0,
                encode_utf8(t@).len() <= usize::MAX,
                from_off == byte_offset(t@, from as int),
                spans_from(v, needle@, 0) == spans@ + spans_from(v, needle@, from as int),
            decreases t.len() - from,
        {
            if occurs(&t, &needle, from) {
                let mut end = from;
                let mut end_off = from_off;
                while end < from + m
                    invariant
                        from <= end <= from + m <= t@.len(),
                        end_off == byte_offset(t@, end as int),
                        encode_utf8(t@).len() <= usize::MAX,
                    decreases from + m - end,
                {
                    proof {
                        lemma_byte_offset_step(t@, end as int);
                    }
                    end_off = end_off + len_utf8(t[end]);
                    end += 1;
                }
                let hit = self.to_raw(from_off, end_off);
                let ghost before = spans@;
                let ghost head = span_seq(hit);
                match hit {
                    Some(span) => {
                        spans.push(span);
                        assert(spans@ == before + seq![span]);
                    },
                    None => {
                        assert(before + Seq::<ByteSpan>::empty() == before);
                    },
                }
                proof {
                    assert(spans@ == before + head);
                    assert(before + (head + spans_from(v, needle@, from + m)) == (before + head) + spans_from(v, needle@, from + m));
                }
                from = from + m;
                from_off = end_off;
            } else {
                proof {
                    lemma_byte_offset_step(t@, from as int);
                }
                from_off = from_off + len_utf8(t[from]);
                from += 1;
            }
        }
        assert(spans@ + Seq::<ByteSpan>::empty() == spans@);
        spans
    }
}


/// Whether `segs` tile the raw bytes of the first `upto` characters: in
/// order, from the start, each ending where the next begins.
pub open spec fn tiles(cs: Seq<char>, segs: Seq<Segment>, upto: int) -> bool {
    &&& segs.len() == 0 ==> upto == 0
    &&& segs.len() > 0 ==> segs[0].raw_start == 0
        && segs.last().raw_start + segs.last().raw_len == byte_offset(cs, upto)
    &&& forall|i: int| 0 < i < segs.len()
        ==> #[trigger] segs[i].raw_start == segs[i - 1].raw_start + segs[i - 1].raw_len
    &&& forall|i: int| 0 <= i < segs.len()
        ==> #[trigger] segs[i].raw_start + segs[i].raw_len <= byte_offset(cs, upto)
}

/// The segments closed while scanning tile the text up to where the open
/// segment begins.
proof fn lemma_scan_tiles(cs: Seq<char>, k: int)
    requires
        1 <= k <= cs.len(),
        encode_utf8(cs).len() <= usize::MAX,
    ensures
        0 <= scan(cs, k).2 < k,
        tiles(cs, scan(cs, k).1, scan(cs, k).2),
    decreases k,
{
    if k > 1 {
        lemma_scan_tiles(cs, k - 1);
        if combining_class(cs[k - 1]) == 0 {
            let st = scan(cs, k - 1);
            lemma_close_tiles(cs, st, k - 1);
        }
    }
}

/// Closing the open segment at `end` extends a tiling up to `end`.
proof fn lemma_close_tiles(cs: Seq<char>, st: ScanState, end: int)
    requires
        0 <= st.2 < end <= cs.len(),
        encode_utf8(cs).len() <= usize::MAX,
        tiles(cs, st.1, st.2),
    ensures
        tiles(cs, close_segment(cs, st, end).1, end),
{
    lemma_offsets_grow(cs, st.2, end);
    lemma_offsets_grow(cs, 0, st.2);
    assert(byte_offset(cs, 0) == 0) by {
        assert(cs.take(0) =~= Seq::<char>::empty());
    }
    let segs = close_segment(cs, st, end).1;
    assert(segs.drop_last() == st.1);
    assert forall|i: int| 0 <= i < segs.len()
        implies #[trigger] segs[i].raw_start + segs[i].raw_len <= byte_offset(cs, end) by {
        if i < st.1.len() {
            assert(segs[i] == st.1[i]);
        }
    }
    assert forall|i: int| 0 < i < segs.len()
        implies #[trigger] segs[i].raw_start == segs[i - 1].raw_start + segs[i - 1].raw_len by {
        if i < st.1.len() {
            assert(segs[i] == st.1[i]);
            assert(segs[i - 1] == st.1[i - 1]);
        } else {
            assert(segs[i - 1] == st.1.last());
        }
    }
}

/// Every segment of the index maps back inside the source: the segments
/// tile the raw bytes from the first to the last, each ending where the next
/// begins, so each raw offset the index gives lies within the text.
pub proof fn segments_tile_the_source(cs: Seq<char>)
    requires
        encode_utf8(cs).len() <= usize::MAX,
    ensures
        tiles(cs, index_of(cs).segments, cs.len() as int),
        byte_offset(cs, cs.len() as int) == encode_utf8(cs).len(),
{
    assert(cs.take(cs.len() as int) =~= cs);
    if cs.len() > 0 {
        lemma_scan_tiles(cs, cs.len() as int);
        lemma_close_tiles(cs, scan(cs, cs.len() as int), cs.len() as int);
    }
}

} // verus!
