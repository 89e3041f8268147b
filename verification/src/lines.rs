//! Where a byte offset falls, as a human would say it: line and column.

use vstd::prelude::*;
use vstd::string::StringSliceAdditionalSpecFns;
use vstd::utf8::decode_utf8;
use crate::grapheme::{column, clusters_passed, extended_clusters};
use crate::text::{
    at_boundary, line_starts, newlines_before, lemma_boundary_after_ascii, lemma_line_starts, lemma_newlines_bound,
    lemma_str_boundary, str_get, str_len,
};

verus! {

/// A position as a person would write it: `line:column`, both 1-based. The
/// column counts grapheme clusters, not bytes.
#[derive(Debug, Clone, Copy, PartialEq, Eq, PartialOrd, Ord, Hash)]
pub struct LineCol {
    /// 1-based, counting `\n`.
    pub line: u32,
    /// 1-based, counting grapheme clusters from the start of the line.
    pub column: u32,
}

impl LineCol {
    /// `line:column`, the way a compiler writes a position.
    pub fn to_string(&self) -> (r: String)
        ensures
            r@ == crate::fmt::decimal(self.line as nat) + ":"@ + crate::fmt::decimal(self.column as nat),
    {
        let mut s = String::new();
        crate::fmt::push_decimal(&mut s, self.line as u64);
        crate::fmt::push_str(&mut s, ":");
        crate::fmt::push_decimal(&mut s, self.column as u64);
        assert(Seq::<char>::empty() + crate::fmt::decimal(self.line as nat) == crate::fmt::decimal(self.line as nat));
        s
    }
}

/// Where line `line` (1-based) begins and ends in a text whose line table is
/// `starts`: from its start to the next line's start, or to the end.
pub open spec fn line_bounds(starts: Seq<int>, len: int, line: int) -> (int, int) {
    (starts[line - 1], if line < starts.len() { starts[line] } else { len })
}

/// A line's bytes without its trailing newline.
pub open spec fn without_newline(bytes: Seq<u8>) -> Seq<u8> {
    if bytes.len() > 0 && bytes.last() == 10u8 {
        bytes.drop_last()
    } else {
        bytes
    }
}

/// Byte offsets of every line start in a source text.
pub struct LineIndex {
    starts: Vec<u32>,
    len_bytes: u32,
    source: Ghost<Seq<u8>>,
}

impl LineIndex {
    /// The bytes this index was built from.
    pub closed spec fn indexed(&self) -> Seq<u8> {
        self.source@
    }

    #[verifier::type_invariant]
    spec fn inv(&self) -> bool {
        &&& self.source@.len() < u32::MAX
        &&& self.len_bytes == self.source@.len()
        &&& self.starts@.len() == line_starts(self.source@).len()
        &&& forall|i: int| 0 <= i < self.starts@.len()
            ==> self.starts@[i] == #[trigger] line_starts(self.source@)[i]
    }

    proof fn facts(&self)
        requires
            self.inv(),
        ensures
            self.indexed().len() < u32::MAX,
            self.len_bytes == self.indexed().len(),
            self.starts@.len() == line_starts(self.indexed()).len(),
            forall|i: int| 0 <= i < self.starts@.len()
                ==> self.starts@[i] == #[trigger] line_starts(self.indexed())[i],
            self.starts@.len() == newlines_before(self.indexed(), self.indexed().len() as int) + 1,
            self.starts@[0] == 0,
            forall|i: int, j: int| 0 <= i < j < self.starts@.len() ==> self.starts@[i] < self.starts@[j],
            forall|i: int| 0 <= i < self.starts@.len() ==> #[trigger] self.starts@[i] <= self.len_bytes,
    {
        lemma_line_starts(self.indexed());
        let ls = line_starts(self.indexed());
        assert forall|i: int, j: int| 0 <= i < j < self.starts@.len() implies self.starts@[i] < self.starts@[j] by {
            assert(self.starts@[i] == ls[i] && self.starts@[j] == ls[j]);
        }
        assert forall|i: int| 0 <= i < self.starts@.len() implies #[trigger] self.starts@[i] <= self.len_bytes by {
            assert(self.starts@[i] == ls[i]);
        }
    }

    /// Builds the table in one pass. Offsets are stored as `u32`, so the text
    /// must be shorter than 4 GiB.
    pub fn new(source: &str) -> (index: Self)
        requires
            source.spec_bytes().len() < u32::MAX,
        ensures
            index.indexed() == source.spec_bytes(),
    {
        let bytes = source.as_bytes();
        let n = bytes.len();
        let ghost all = source.spec_bytes();
        let mut starts: Vec<u32> = Vec::new();
        starts.push(0);
        let mut i: usize = 0;
        proof {
            assert(all.take(0) =~= Seq::<u8>::empty());
        }
        while i < n
            invariant
                bytes@ == all,
                n == all.len(),
                n < u32::MAX,
                i <= n,
                starts@.len() == line_starts(all.take(i as int)).len(),
                forall|j: int| 0 <= j < starts@.len()
                    ==> starts@[j] == #[trigger] line_starts(all.take(i as int))[j],
            decreases n - i,
        {
            proof {
                assert(all.take(i + 1).drop_last() == all.take(i as int));
                assert(all.take(i + 1).last() == all[i as int]);
            }
            if bytes[i] == 10u8 {
                starts.push((i + 1) as u32);
            }
            i += 1;
        }
        proof {
            assert(all.take(n as int) == all);
        }
        LineIndex { starts, len_bytes: n as u32, source: Ghost(all) }
    }

    /// Number of lines. A text ending in a newline has an empty final line,
    /// and it is counted.
    pub fn line_count(&self) -> (n: usize)
        ensures
            n == line_starts(self.indexed()).len(),
            n == newlines_before(self.indexed(), self.indexed().len() as int) + 1,
    {
        proof { use_type_invariant(self); self.facts(); }
        self.starts.len()
    }

    /// Whether this index was built from `source`. Length only: it catches an
    /// index kept across an edit without hashing the document on every query.
    pub fn matches(&self, source: &str) -> (b: bool)
        ensures
            b == (source.spec_bytes().len() == self.indexed().len()),
    {
        proof { use_type_invariant(self); self.facts(); }
        str_len(source) == self.len_bytes as usize
    }

    /// 0-based index of the line containing `byte`: the last start at or
    /// before it.
    pub(crate) fn index_of(&self, byte: usize) -> (i: usize)
        ensures
            i < line_starts(self.indexed()).len(),
            i == newlines_before(self.indexed(), if byte <= self.indexed().len() { byte as int } else { self.indexed().len() as int }),
    {
        proof { use_type_invariant(self); self.facts(); }
        let len = self.starts.len();
        let mut lo: usize = 0;
        let mut hi: usize = len;
        while hi - lo > 1
            invariant
                len == self.starts@.len(),
                lo < hi <= len,
                self.starts@[lo as int] <= byte,
                hi < len ==> self.starts@[hi as int] > byte,
            decreases hi - lo,
        {
            let mid = lo + (hi - lo) / 2;
            if self.starts[mid] as usize <= byte {
                lo = mid;
            } else {
                hi = mid;
            }
        }
        proof {
            let src = self.indexed();
            let b = if byte <= src.len() { byte as int } else { src.len() as int };
            lemma_line_starts(src);
            let k: int = newlines_before(src, b) as int;
            let ls = line_starts(src);
            assert(ls[k as int] <= b);
            assert(self.starts@[k as int] == ls[k as int]);
            if (lo as int) < k {
                assert(self.starts@[lo + 1] <= self.starts@[k as int]);
            }
            if (lo as int) > k {
                assert(k + 1 < ls.len());
                assert(self.starts@[k + 1] == ls[k + 1]);
                assert(self.starts@[k + 1] <= self.starts@[lo as int]);
            }
        }
        lo
    }

    /// Byte offset of the line at a 0-based index.
    pub(crate) fn start_at(&self, index: usize) -> (b: u32)
        requires
            index < line_starts(self.indexed()).len(),
        ensures
            b == line_starts(self.indexed())[index as int],
    {
        proof { use_type_invariant(self); self.facts(); }
        self.starts[index]
    }

    /// The 1-based line a byte offset falls on: one more than the newlines
    /// before it. An offset past the end counts as the end.
    pub fn line(&self, byte: usize) -> (line: u32)
        ensures
            line == newlines_before(self.indexed(), if byte <= self.indexed().len() { byte as int } else { self.indexed().len() as int }) + 1,
    {
        proof { use_type_invariant(self); self.facts(); }
        let i = self.index_of(byte);
        proof {
            let src = self.indexed();
            lemma_newlines_bound(src, if byte <= src.len() { byte as int } else { src.len() as int });
        }
        (i + 1) as u32
    }

    /// Byte offset where a 1-based line begins, or `None` past the end.
    pub fn line_start(&self, line: u32) -> (r: Option<usize>)
        ensures
            r is Some <==> 1 <= line <= line_starts(self.indexed()).len(),
            r matches Some(b) ==> b == line_starts(self.indexed())[line - 1],
    {
        proof { use_type_invariant(self); self.facts(); }
        if line == 0 {
            return None;
        }
        let i = (line - 1) as usize;
        if i < self.starts.len() {
            Some(self.starts[i] as usize)
        } else {
            None
        }
    }

    /// The text of a 1-based line, without its trailing newline; `None` if
    /// `source` is not the text this index was built from, or past the end.
    pub fn line_text<'a>(&self, source: &'a str, line: u32) -> (r: Option<&'a str>)
        ensures
            r is Some <==> ({
                let ls = line_starts(self.indexed());
                let (start, end) = line_bounds(ls, source.spec_bytes().len() as int, line as int);
                &&& source.spec_bytes().len() == self.indexed().len()
                &&& 1 <= line <= ls.len()
                &&& at_boundary(source.spec_bytes(), start)
                &&& at_boundary(source.spec_bytes(), end)
            }),
            r matches Some(t) ==> ({
                let ls = line_starts(self.indexed());
                let (start, end) = line_bounds(ls, source.spec_bytes().len() as int, line as int);
                t.spec_bytes() == without_newline(source.spec_bytes().subrange(start, end))
            }),
    {
        proof { use_type_invariant(self); self.facts(); }
        if !self.matches(source) {
            return None;
        }
        let start = match self.line_start(line) {
            Some(s) => s,
            None => return None,
        };
        let len = str_len(source);
        let end = if (line as usize) < self.starts.len() {
            self.starts[line as usize] as usize
        } else {
            len
        };
        let text = match str_get(source, start, end) {
            Some(t) => t,
            None => return None,
        };
        Some(strip_newline(text))
    }

    /// Line and grapheme column for a byte offset, both 1-based. An offset
    /// past the end counts as the end. `None` only if `source` is not the
    /// text this index was built from.
    pub fn locate(&self, source: &str, byte: usize) -> (r: Option<LineCol>)
        ensures
            ({
                let src = source.spec_bytes();
                let b = if byte <= src.len() { byte as int } else { src.len() as int };
                let line = newlines_before(self.indexed(), b) + 1;
                let ls = line_starts(self.indexed());
                let (start, end) = line_bounds(ls, src.len() as int, line as int);
                &&& r is Some <==> (src.len() == self.indexed().len()
                    && at_boundary(src, start) && at_boundary(src, end))
                &&& r matches Some(lc) ==> {
                    &&& lc.line == line
                    &&& lc.column == clusters_passed(
                        extended_clusters(decode_utf8(without_newline(src.subrange(start, end)))),
                        b - start) + 1
                }
            }),
    {
        proof { use_type_invariant(self); self.facts(); }
        if !self.matches(source) {
            return None;
        }
        let len = str_len(source);
        let byte = if byte <= len { byte } else { len };
        let line = self.line(byte);
        proof {
            lemma_line_starts(self.indexed());
            let k = newlines_before(self.indexed(), byte as int);
            assert(k < line_starts(self.indexed()).len());
        }
        let start = match self.line_start(line) {
            Some(s) => s,
            None => return None,
        };
        let text = match self.line_text(source, line) {
            Some(t) => t,
            None => return None,
        };
        proof {
            lemma_line_starts(self.indexed());
            vstd::utf8::encode_utf8_decode_utf8(text@);
            assert(decode_utf8(text.spec_bytes()) == text@);
        }
        let column = column(text, byte - start);
        let r = LineCol { line, column: (column + 1) as u32 };
        proof {
            let src = source.spec_bytes();
            let ls = line_starts(self.indexed());
            let (st, en) = line_bounds(ls, src.len() as int, line as int);
            assert(st == start);
            assert(text.spec_bytes() == without_newline(src.subrange(st, en)));
            assert(r.column == clusters_passed(extended_clusters(text@), byte - start) + 1);
        }
        Some(r)
    }
}

/// `text` without one trailing `\n`, if it has one.
pub fn strip_newline(text: &str) -> (r: &str)
    ensures
        r.spec_bytes() == without_newline(text.spec_bytes()),
{
    let n = str_len(text);
    if n > 0 && text.as_bytes()[n - 1] == 10u8 {
        proof {
            lemma_str_boundary(text, 0);
            vstd::utf8::is_char_boundary_start_end_of_seq(text.spec_bytes());
            assert(text.spec_bytes().subrange(0, n - 1) == text.spec_bytes().drop_last());
        }
        match str_get(text, 0, n - 1) {
            Some(t) => t,
            None => text,
        }
    } else {
        text
    }
}


/// Where the line holding byte `b` starts: just past the last newline before
/// it, or at the start of the text.
pub open spec fn start_of_line(bytes: Seq<u8>, b: int) -> int
    decreases b,
{
    if b <= 0 || b > bytes.len() {
        0
    } else if bytes[b - 1] == 10u8 {
        b
    } else {
        start_of_line(bytes, b - 1)
    }
}

/// One-based line and column of a byte offset, without an index: the line
/// counts the newlines before the offset (clamped to the end of the text),
/// and the column counts the grapheme clusters of the text from the line's
/// start that end by the offset, so a conjunct advances it by one however
/// many code points it took to write.
pub fn position(source: &str, offset: usize) -> (r: (usize, usize))
    requires
        source.spec_bytes().len() < usize::MAX,
        at_boundary(source.spec_bytes(), if offset <= source.spec_bytes().len() { offset as int } else { source.spec_bytes().len() as int }),
    ensures
        ({
            let bytes = source.spec_bytes();
            let b = if offset <= bytes.len() { offset as int } else { bytes.len() as int };
            let ls = start_of_line(bytes, b);
            &&& r.0 == newlines_before(bytes, b) + 1
            &&& r.1 == clusters_passed(extended_clusters(decode_utf8(bytes.subrange(ls, bytes.len() as int))), offset - ls) + 1
        }),
{
    let bytes = source.as_bytes();
    let len = str_len(source);
    let b = if offset <= len { offset } else { len };
    let mut lines: usize = 1;
    let mut i: usize = 0;
    while i < b
        invariant
            b <= len == bytes@.len(),
            bytes@ == source.spec_bytes(),
            len < usize::MAX,
            i <= b,
            lines == newlines_before(bytes@, i as int) + 1,
        decreases b - i,
    {
        proof {
            lemma_newlines_bound(bytes@, i as int);
        }
        if bytes[i] == 10u8 {
            lines += 1;
        }
        i += 1;
    }
    let mut ls = b;
    while ls > 0 && bytes[ls - 1] != 10u8
        invariant
            ls <= b <= bytes@.len(),
            start_of_line(bytes@, b as int) == start_of_line(bytes@, ls as int),
        decreases ls,
    {
        ls -= 1;
    }
    proof {
        if ls > 0 {
            lemma_str_boundary(source, ls - 1);
            lemma_boundary_after_ascii(bytes@, ls - 1);
            lemma_str_boundary(source, ls as int);
        } else if bytes@.len() > 0 {
            lemma_str_boundary(source, 0);
            vstd::utf8::is_char_boundary_start_end_of_seq(bytes@);
        }
    }
    let rest = match str_get(source, ls, len) {
        Some(t) => t,
        None => {
            return (lines, 1);
        },
    };
    proof {
        vstd::utf8::encode_utf8_decode_utf8(rest@);
        assert(decode_utf8(rest.spec_bytes()) == rest@);
    }
    let column = column(rest, offset - ls);
    (lines, column + 1)
}

} // verus!
