//! The boundary between byte offsets and everything outside this crate:
//! offsets in UTF-16 code units, and the mapper that produces them.

use vstd::prelude::*;
use vstd::string::StringSliceAdditionalSpecFns;
use crate::lines::LineIndex;
use crate::span::ByteSpan;
use crate::text::{
    at_boundary, floor_boundary, is_continuation, line_starts, newlines_before, unit_weight,
    units_before, units_in, utf16_units, lemma_floor_boundary, lemma_line_starts,
    lemma_units_encode, lemma_units_in_mono, lemma_units_in_split, lemma_units_over_continuations,
    lemma_units_prefix, lemma_units_strict, lemma_line_start_boundary, str_len,
};

verus! {

/// An offset in UTF-16 code units — what JavaScript, CodeMirror, and DOM
/// ranges count in. Only [`Utf16Mapper`] produces one from a byte offset.
#[derive(Debug, Clone, Copy, PartialEq, Eq, PartialOrd, Ord, Hash)]
pub struct Char16(u32);

impl View for Char16 {
    type V = u32;

    closed spec fn view(&self) -> u32 {
        self.0
    }
}

impl Char16 {
    /// The offset as a number.
    pub fn get(self) -> (r: u32)
        ensures
            r == self@,
    {
        self.0
    }

    /// An offset that arrived from the editor, which already counts in UTF-16
    /// code units.
    pub fn from_editor(offset: u32) -> (r: Self)
        ensures
            r@ == offset,
    {
        Char16(offset)
    }
}

/// A half-open range in UTF-16 code units.
#[derive(Debug, Clone, Copy, PartialEq, Eq, Hash)]
pub struct Char16Range {
    pub start: Char16,
    pub end: Char16,
}

impl Char16Range {
    pub fn len(&self) -> (n: u32)
        ensures
            n == if self.end@ >= self.start@ { self.end@ - self.start@ } else { 0 },
    {
        self.end.get().saturating_sub(self.start.get())
    }

    pub fn is_empty(&self) -> (b: bool)
        ensures
            b == (self.end@ <= self.start@),
    {
        self.end.get() <= self.start.get()
    }
}

/// The UTF-16 offset of byte `byte` in `bytes`: the code units of every
/// character that ends at or before it. A byte inside a character rounds
/// down to that character's start, and a byte past the end counts as the end.
pub open spec fn char16_of(bytes: Seq<u8>, byte: int) -> nat {
    units_before(bytes, floor_boundary(bytes, if byte <= bytes.len() { byte } else { bytes.len() as int }))
}

/// Converts byte offsets into UTF-16 code-unit offsets, indexed by line.
pub struct Utf16Mapper {
    lines: LineIndex,
    /// UTF-16 offset of each line start, parallel to the line table.
    line_char16: Vec<u32>,
    len_char16: u32,
}

impl Utf16Mapper {
    /// The bytes this mapper was built from.
    pub closed spec fn indexed(&self) -> Seq<u8> {
        self.lines.indexed()
    }

    #[verifier::type_invariant]
    spec fn inv(&self) -> bool {
        &&& self.lines.indexed().len() < u32::MAX
        &&& self.line_char16@.len() == line_starts(self.lines.indexed()).len()
        &&& forall|i: int| 0 <= i < self.line_char16@.len()
            ==> self.line_char16@[i] == units_before(self.lines.indexed(), #[trigger] line_starts(self.lines.indexed())[i])
        &&& self.len_char16 == units_before(self.lines.indexed(), self.lines.indexed().len() as int)
        &&& units_before(self.lines.indexed(), self.lines.indexed().len() as int) <= self.lines.indexed().len()
    }

    /// Builds the line index. One pass over the source.
    pub fn new(source: &str) -> (m: Self)
        requires
            source.spec_bytes().len() < u32::MAX,
        ensures
            m.indexed() == source.spec_bytes(),
    {
        let bytes = source.as_bytes();
        let n = bytes.len();
        let ghost all = source.spec_bytes();
        proof {
            lemma_units_encode(source@);
        }
        let mut line_char16: Vec<u32> = Vec::new();
        line_char16.push(0);
        let mut char16: u32 = 0;
        let mut i: usize = 0;
        proof {
            assert(all.take(0) =~= Seq::<u8>::empty());
        }
        while i < n
            invariant
                bytes@ == all,
                n == all.len(),
                n < u32::MAX,
                units_before(all, n as int) <= n,
                i <= n,
                char16 == units_before(all, i as int),
                line_char16@.len() == line_starts(all.take(i as int)).len(),
                forall|j: int| 0 <= j < line_char16@.len()
                    ==> line_char16@[j] == units_before(all, #[trigger] line_starts(all.take(i as int))[j]),
            decreases n - i,
        {
            proof {
                assert(all.take(i + 1).drop_last() == all.take(i as int));
                assert(all.take(i + 1).last() == all[i as int]);
                lemma_units_in_mono(all, 0, i + 1, n as int);
            }
            let b = bytes[i];
            if b < 0x80 || b >= 0xC0 {
                if b >= 0xF0 {
                    char16 = char16 + 2;
                } else {
                    char16 = char16 + 1;
                }
            }
            if b == 10u8 {
                line_char16.push(char16);
            }
            i += 1;
        }
        proof {
            assert(all.take(n as int) == all);
        }
        let lines = LineIndex::new(source);
        Utf16Mapper { lines, line_char16, len_char16: char16 }
    }

    /// The byte-only line table underneath.
    pub fn lines(&self) -> (l: &LineIndex)
        ensures
            l.indexed() == self.indexed(),
    {
        &self.lines
    }

    /// Length of the indexed source, in UTF-16 code units.
    pub fn len_char16(&self) -> (c: Char16)
        ensures
            c@ == units_before(self.indexed(), self.indexed().len() as int),
    {
        proof { use_type_invariant(self); }
        Char16(self.len_char16)
    }

    /// Number of lines in the indexed source.
    pub fn line_count(&self) -> (n: usize)
        ensures
            n == line_starts(self.indexed()).len(),
    {
        self.lines.line_count()
    }

    fn matches(&self, source: &str) -> (b: bool)
        ensures
            b == (source.spec_bytes().len() == self.indexed().len()),
    {
        self.lines.matches(source)
    }

    /// Converts a byte offset. A byte past the end clamps to the end, and a
    /// byte inside a character resolves to that character's start. `None`
    /// only if `source` is not the length of the string this mapper indexed;
    /// for the string it indexed, the answer is exact.
    pub fn to_char16(&self, source: &str, byte: usize) -> (r: Option<Char16>)
        ensures
            r is Some <==> source.spec_bytes().len() == self.indexed().len(),
            source.spec_bytes() == self.indexed()
                ==> (r matches Some(c) && c@ == char16_of(source.spec_bytes(), byte as int)),
    {
        proof { use_type_invariant(self); }
        if !self.matches(source) {
            return None;
        }
        let bytes = source.as_bytes();
        let len = bytes.len();
        let byte = if byte <= len { byte } else { len };
        let line = self.lines.index_of(byte);
        let line_byte = self.lines.start_at(line) as usize;
        let ghost src = self.indexed();
        proof {
            lemma_line_starts(src);
        }
        // Back to the start of the character holding `byte`.
        let mut end = byte;
        while end > 0 && end < len && bytes[end] >= 0x80 && bytes[end] < 0xC0
            invariant
                bytes@ == source.spec_bytes(),
                len == bytes@.len(),
                end <= byte <= len,
                floor_boundary(bytes@, end as int) == floor_boundary(bytes@, byte as int),
            decreases end,
        {
            end -= 1;
        }
        proof {
            if source.spec_bytes() == src {
                lemma_line_start_boundary(source, line as int);
                lemma_floor_boundary(src, byte as int);
                lemma_units_in_mono(src, 0, end as int, len as int);
            }
        }
        let mut char16: u32 = self.line_char16[line];
        let mut p: usize = line_byte;
        while p < end
            invariant
                bytes@ == source.spec_bytes(),
                len == bytes@.len(),
                end <= len,
                source.spec_bytes() == src ==> line_byte <= p <= end,
                source.spec_bytes() == src ==> char16 == units_before(src, p as int),
                source.spec_bytes() == src ==> units_before(src, end as int) < u32::MAX,
            decreases end - p,
        {
            let b = bytes[p];
            if b < 0x80 || b >= 0xC0 {
                if b >= 0xF0 {
                    char16 = char16.saturating_add(2);
                } else {
                    char16 = char16.saturating_add(1);
                }
            }
            proof {
                if source.spec_bytes() == src {
                    lemma_units_in_mono(src, 0, p + 1, end as int);
                }
            }
            p += 1;
        }
        Some(Char16(char16))
    }

    /// Converts back to a byte offset. `None` if the offset is past the end,
    /// or falls between the two halves of a surrogate pair: that position
    /// names no character and has no byte offset. For the string this mapper
    /// indexed, a `Some` is the one character boundary with that offset.
    pub fn to_byte(&self, source: &str, offset: Char16) -> (r: Option<usize>)
        ensures
            source.spec_bytes().len() != self.indexed().len() ==> r is None,
            offset@ > units_before(self.indexed(), self.indexed().len() as int) ==> r is None,
            source.spec_bytes() == self.indexed() ==> ({
                let src = source.spec_bytes();
                &&& r matches Some(b) ==> b <= src.len() && at_boundary(src, b as int)
                    && units_before(src, b as int) == offset@
                &&& r is None ==> forall|b: int| 0 <= b <= src.len() && at_boundary(src, b)
                    ==> #[trigger] units_before(src, b) != offset@
            }),
    {
        proof { use_type_invariant(self); }
        if !self.matches(source) || offset.get() > self.len_char16 {
            proof {
                let src = self.indexed();
                if source.spec_bytes() == src {
                    assert forall|b: int| 0 <= b <= src.len() && at_boundary(src, b)
                        implies #[trigger] units_before(src, b) != offset@ by {
                        lemma_units_in_mono(src, 0, b, src.len() as int);
                    }
                }
            }
            return None;
        }
        let target = offset.get();
        let ghost src = self.indexed();
        proof {
            lemma_line_starts(src);
            assert(self.line_char16@[0] == units_before(src, line_starts(src)[0]));
        }
        // The last line starting at or before the target.
        let count = self.line_char16.len();
        let mut lo: usize = 0;
        let mut hi: usize = count;
        while hi - lo > 1
            invariant
                count == self.line_char16@.len(),
                lo < hi <= count,
                self.line_char16@[lo as int] <= target,
            decreases hi - lo,
        {
            let mid = lo + (hi - lo) / 2;
            if self.line_char16[mid] <= target {
                lo = mid;
            } else {
                hi = mid;
            }
        }
        let line = lo;
        let line_byte = self.lines.start_at(line) as usize;
        let bytes = source.as_bytes();
        let len = bytes.len();
        let mut char16: u32 = self.line_char16[line];
        let mut p: usize = line_byte;
        proof {
            if source.spec_bytes() == src {
                assert forall|b: int| 0 <= b < p && at_boundary(src, b)
                    implies #[trigger] units_before(src, b) < target by {
                    lemma_units_strict(src, b, p as int);
                }
            }
        }
        while p < len
            invariant
                bytes@ == source.spec_bytes(),
                len == bytes@.len(),
                p <= len,
                src == self.indexed(),
                source.spec_bytes().len() == src.len(),
                target == offset@,
                target <= units_before(src, src.len() as int),
                units_before(src, src.len() as int) <= src.len() < u32::MAX,
                source.spec_bytes() == src ==> char16 == units_before(src, p as int),
                source.spec_bytes() == src ==> forall|b: int| 0 <= b < p && at_boundary(src, b)
                    ==> #[trigger] units_before(src, b) < target,
            decreases len - p,
        {
            let b = bytes[p];
            if b < 0x80 || b >= 0xC0 {
                if char16 == target {
                    return Some(p);
                }
                if char16 > target {
                    proof {
                        if source.spec_bytes() == src {
                            assert forall|q: int| 0 <= q <= src.len() && at_boundary(src, q)
                                implies #[trigger] units_before(src, q) != target by {
                                if q >= p {
                                    lemma_units_in_mono(src, 0, p as int, q);
                                }
                            }
                        }
                    }
                    return None;
                }
                if b >= 0xF0 {
                    char16 = char16.saturating_add(2);
                } else {
                    char16 = char16.saturating_add(1);
                }
            }
            proof {
                if source.spec_bytes() == src {
                    lemma_units_in_mono(src, 0, p + 1, len as int);
                }
            }
            p += 1;
        }
        if char16 == target {
            Some(len)
        } else {
            None
        }
    }

    /// Converts a span: both ends, each as [`Self::to_char16`] does.
    pub fn to_char16_range(&self, source: &str, span: &ByteSpan) -> (r: Option<Char16Range>)
        ensures
            r is Some <==> source.spec_bytes().len() == self.indexed().len(),
            source.spec_bytes() == self.indexed() ==> (r matches Some(range)
                && range.start@ == char16_of(source.spec_bytes(), span.start as int)
                && range.end@ == char16_of(source.spec_bytes(), span.end as int)),
    {
        let start = match self.to_char16(source, span.start) {
            Some(c) => c,
            None => return None,
        };
        let end = match self.to_char16(source, span.end) {
            Some(c) => c,
            None => return None,
        };
        Some(Char16Range { start, end })
    }

    /// The 1-based line a byte offset falls on; `None` only if `source` is
    /// not the length of the string this mapper indexed.
    pub fn line(&self, source: &str, byte: usize) -> (r: Option<u32>)
        ensures
            r is Some <==> source.spec_bytes().len() == self.indexed().len(),
            r matches Some(l) ==> l == newlines_before(self.indexed(),
                if byte <= self.indexed().len() { byte as int } else { self.indexed().len() as int }) + 1,
    {
        if !self.matches(source) {
            return None;
        }
        Some(self.lines.line(byte))
    }
}


/// Converting a byte offset on a character boundary to UTF-16 and back
/// gives the same offset: no other boundary has that UTF-16 offset, so
/// `to_byte` of what `to_char16` returned finds exactly where it started.
pub proof fn boundaries_round_trip(bytes: Seq<u8>, b: int)
    requires
        0 <= b <= bytes.len(),
        at_boundary(bytes, b),
    ensures
        char16_of(bytes, b) == units_before(bytes, b),
        forall|c: int| 0 <= c <= bytes.len() && at_boundary(bytes, c)
            && #[trigger] units_before(bytes, c) == char16_of(bytes, b) ==> c == b,
{
    assert forall|c: int| 0 <= c <= bytes.len() && at_boundary(bytes, c)
        && #[trigger] units_before(bytes, c) == char16_of(bytes, b) implies c == b by {
        if c < b {
            lemma_units_strict(bytes, c, b);
        } else if b < c {
            lemma_units_strict(bytes, b, c);
        }
    }
}

} // verus!
