//! Recovering where a text leaf came from.
//!
//! Text leaves arrive with no span, but the tree holds them in document
//! order, so a walk that keeps a cursor and looks forward from it finds each
//! run where it actually is. White space is matched one for one, any white
//! space character against any other, never collapsing a run: a line break
//! inside a verse arrives as a space, and letting two source characters stand
//! for one would shift every offset after it.

use vstd::prelude::*;
use vstd::string::StringSliceAdditionalSpecFns;
use vstd::utf8::encode_utf8;
use crate::span::ByteSpan;
use crate::text::{byte_offset, chars_of, is_white_space, is_whitespace, len_utf8, lemma_byte_offset_step, lemma_offsets_grow, str_len};

verus! {

/// Two characters match when they are equal or both white space.
pub open spec fn same_char(a: char, b: char) -> bool {
    a == b || (is_white_space(a) && is_white_space(b))
}

/// How many white-space characters a run begins with.
pub open spec fn leading_ws(ts: Seq<char>) -> nat
    decreases ts.len(),
{
    if ts.len() > 0 && is_white_space(ts[0]) {
        1 + leading_ws(ts.drop_first())
    } else {
        0
    }
}

/// The character index whose byte offset is `b`, searching from index `k`.
pub open spec fn index_at(cs: Seq<char>, b: int, k: int) -> Option<int>
    decreases cs.len() + 1 - k,
{
    if k < 0 || k > cs.len() {
        None
    } else if byte_offset(cs, k) == b {
        Some(k)
    } else if byte_offset(cs, k) > b {
        None
    } else {
        index_at(cs, b, k + 1)
    }
}

/// Whether `cs[s..)` matches the run `ts`, character for character.
pub open spec fn run_matches(cs: Seq<char>, s: int, ts: Seq<char>) -> bool {
    0 <= s && s + ts.len() <= cs.len() && forall|i: int| 0 <= i < ts.len() ==> #[trigger] same_char(cs[s + i], ts[i])
}

/// Whether `cs[a..b)` is all white space.
pub open spec fn all_white_space(cs: Seq<char>, a: int, b: int) -> bool {
    forall|i: int| a <= i < b ==> #[trigger] is_white_space(cs[i])
}

/// Whether the run's first non-white-space character, found at index `q`,
/// places the run: its leading white space lies before `q`, not before the
/// cursor index `p`, and the whole run matches from there.
pub open spec fn candidate(cs: Seq<char>, p: int, ts: Seq<char>, q: int) -> bool {
    let l = leading_ws(ts) as int;
    &&& 0 <= q < cs.len()
    &&& cs[q] == ts[l]
    &&& q - l >= p
    &&& all_white_space(cs, q - l, q)
    &&& run_matches(cs, q - l, ts)
}

/// The first index from `q` on that places the run.
pub open spec fn first_candidate(cs: Seq<char>, p: int, ts: Seq<char>, q: int) -> Option<int>
    decreases cs.len() - q,
{
    if q < 0 || q >= cs.len() {
        None
    } else if candidate(cs, p, ts, q) {
        Some(q)
    } else {
        first_candidate(cs, p, ts, q + 1)
    }
}

/// Where the run `ts` sits in the text `cs`, at or after byte offset `from`:
/// `None` for a run of nothing but white space, for a cursor that is not at
/// the start of a character, or when the run is not there.
pub open spec fn locate_in(cs: Seq<char>, from: usize, ts: Seq<char>) -> Option<ByteSpan> {
    let l = leading_ws(ts) as int;
    if l >= ts.len() {
        None
    } else {
        match index_at(cs, from as int, 0) {
            None => None,
            Some(p) => match first_candidate(cs, p, ts, p) {
                None => None,
                Some(q) => Some(ByteSpan {
                    start: byte_offset(cs, q - l) as usize,
                    end: byte_offset(cs, q - l + ts.len()) as usize,
                }),
            },
        }
    }
}

proof fn lemma_leading_ws(ts: Seq<char>, l: int)
    requires
        0 <= l <= ts.len(),
        forall|i: int| 0 <= i < l ==> #[trigger] is_white_space(ts[i]),
        l == ts.len() || !is_white_space(ts[l]),
    ensures
        leading_ws(ts) == l,
    decreases l,
{
    if l > 0 {
        let rest = ts.drop_first();
        assert forall|i: int| 0 <= i < l - 1 implies #[trigger] is_white_space(rest[i]) by {
            assert(rest[i] == ts[i + 1]);
        }
        if l - 1 < rest.len() {
            assert(rest[l - 1] == ts[l]);
        }
        lemma_leading_ws(rest, l - 1);
    }
}

/// The byte offset of index `to`, counted on from that of index `k`.
fn advance(cs: &Vec<char>, k: usize, off: usize, to: usize) -> (r: usize)
    requires
        k <= to <= cs@.len(),
        off == byte_offset(cs@, k as int),
        encode_utf8(cs@).len() <= usize::MAX,
    ensures
        r == byte_offset(cs@, to as int),
{
    let mut i = k;
    let mut o = off;
    while i < to
        invariant
            k <= i <= to <= cs@.len(),
            o == byte_offset(cs@, i as int),
            encode_utf8(cs@).len() <= usize::MAX,
        decreases to - i,
    {
        proof {
            lemma_byte_offset_step(cs@, i as int);
        }
        o = o + len_utf8(cs[i]);
        i += 1;
    }
    o
}

/// Whether the `count` characters before index `q` are white space and do
/// not reach back past index `floor`.
fn back_over_whitespace(cs: &Vec<char>, q: usize, count: usize, floor: usize) -> (b: bool)
    requires
        q <= cs@.len(),
    ensures
        b == (q - count >= floor && all_white_space(cs@, q - count, q as int)),
{
    if count > q || q - count < floor {
        return false;
    }
    let mut i = q - count;
    while i < q
        invariant
            q - count <= i <= q <= cs@.len(),
            all_white_space(cs@, q - count, i as int),
        decreases q - i,
    {
        if !is_whitespace(cs[i]) {
            return false;
        }
        i += 1;
    }
    true
}

/// Whether the run matches the text from index `s`.
fn match_run(cs: &Vec<char>, s: usize, ts: &Vec<char>) -> (b: bool)
    requires
        s <= cs@.len(),
    ensures
        b == run_matches(cs@, s as int, ts@),
{
    if ts.len() > cs.len() - s {
        return false;
    }
    let mut i: usize = 0;
    while i < ts.len()
        invariant
            i <= ts@.len(),
            s <= cs@.len(),
            s + ts@.len() <= cs.len(),
            forall|j: int| 0 <= j < i ==> #[trigger] same_char(cs@[s + j], ts@[j]),
        decreases ts.len() - i,
    {
        let a = cs[s + i];
        let w = ts[i];
        let same = a == w || (is_whitespace(a) && is_whitespace(w));
        if !same {
            assert(!same_char(cs@[s + i], ts@[i as int]));
            return false;
        }
        i += 1;
    }
    true
}

/// Where `text` sits in `source`, at or after byte offset `from`, in bytes.
pub fn locate(source: &str, from: usize, text: &str) -> (r: Option<ByteSpan>)
    ensures
        r == locate_in(source@, from, text@),
{
    let cs = chars_of(source);
    let ts = chars_of(text);
    let _total = str_len(source);
    let mut l: usize = 0;
    while l < ts.len() && is_whitespace(ts[l])
        invariant
            l <= ts@.len(),
            forall|i: int| 0 <= i < l ==> #[trigger] is_white_space(ts@[i]),
        decreases ts.len() - l,
    {
        l += 1;
    }
    proof {
        lemma_leading_ws(ts@, l as int);
    }
    if l == ts.len() {
        return None;
    }
    let anchor = ts[l];
    let mut p: usize = 0;
    let mut off: usize = 0;
    assert(cs@.take(0) == Seq::<char>::empty());
    while p < cs.len() && off < from
        invariant
            p <= cs@.len(),
            off == byte_offset(cs@, p as int),
            encode_utf8(cs@).len() <= usize::MAX,
            index_at(cs@, from as int, 0) == index_at(cs@, from as int, p as int),
        decreases cs.len() - p,
    {
        proof {
            lemma_byte_offset_step(cs@, p as int);
        }
        off = off + len_utf8(cs[p]);
        p += 1;
    }
    proof {
        if p == cs@.len() && off < from {
            assert(index_at(cs@, from as int, p + 1) is None);
        }
    }
    if off != from {
        return None;
    }
    assert(index_at(cs@, from as int, 0) == Some(p as int));
    let mut q = p;
    while q < cs.len()
        invariant
            p <= q <= cs@.len(),
            l < ts@.len(),
            anchor == ts@[l as int],
            leading_ws(ts@) == l,
            off == byte_offset(cs@, p as int),
            encode_utf8(cs@).len() <= usize::MAX,
            first_candidate(cs@, p as int, ts@, p as int) == first_candidate(cs@, p as int, ts@, q as int),
            index_at(cs@, from as int, 0) == Some(p as int),
            cs@ == source@,
            ts@ == text@,
        decreases cs.len() - q,
    {
        if cs[q] == anchor && back_over_whitespace(&cs, q, l, p) {
            let s = q - l;
            if match_run(&cs, s, &ts) {
                assert(candidate(cs@, p as int, ts@, q as int));
                let start = advance(&cs, p, off, s);
                let end = advance(&cs, s, start, s + ts.len());
                return Some(ByteSpan::new(start, end));
            }
        }
        q += 1;
    }
    None
}

/// A cursor over a tree's text: each run is looked for only after
/// everything already placed.
pub struct Cursor {
    at: usize,
}

impl View for Cursor {
    type V = usize;

    closed spec fn view(&self) -> usize {
        self.at
    }
}

impl Cursor {
    /// Starts at the beginning of the region being walked.
    pub fn new(at: usize) -> (c: Self)
        ensures
            c@ == at,
    {
        Cursor { at }
    }

    /// Moves to the start of a node whose position is known; forward only.
    pub fn enter(&mut self, span: &ByteSpan)
        ensures
            final(self)@ == if span.start > old(self)@ { span.start } else { old(self)@ },
    {
        if span.start > self.at {
            self.at = span.start;
        }
    }

    /// Moves past a node whose position is known; forward only.
    pub fn leave(&mut self, span: &ByteSpan)
        ensures
            final(self)@ == if span.end > old(self)@ { span.end } else { old(self)@ },
    {
        if span.end > self.at {
            self.at = span.end;
        }
    }

    /// The span of a text run, and moves past it.
    pub fn take(&mut self, source: &str, text: &str) -> (r: Option<ByteSpan>)
        ensures
            r == locate_in(source@, old(self)@, text@),
            final(self)@ == match r {
                Some(span) => span.end,
                None => old(self)@,
            },
            final(self)@ >= old(self)@,
    {
        let _n = str_len(source);
        proof {
            a_run_is_found_ahead(source@, self.at, text@);
        }
        match locate(source, self.at, text) {
            Some(span) => {
                self.at = span.end;
                Some(span)
            },
            None => None,
        }
    }
}


/// What `index_at` finds is an index at or after where it starts whose byte
/// offset is the one asked for.
proof fn lemma_index_at_found(cs: Seq<char>, b: int, k: int)
    requires
        index_at(cs, b, k) is Some,
    ensures
        index_at(cs, b, k) matches Some(p) && k <= p <= cs.len() && byte_offset(cs, p) == b,
    decreases cs.len() + 1 - k,
{
    if 0 <= k <= cs.len() && byte_offset(cs, k) < b {
        lemma_index_at_found(cs, b, k + 1);
    }
}

/// What `first_candidate` finds places the run.
proof fn lemma_first_candidate_found(cs: Seq<char>, p: int, ts: Seq<char>, q: int)
    requires
        first_candidate(cs, p, ts, q) is Some,
    ensures
        first_candidate(cs, p, ts, q) matches Some(r) && candidate(cs, p, ts, r),
    decreases cs.len() - q,
{
    if 0 <= q < cs.len() && !candidate(cs, p, ts, q) {
        lemma_first_candidate_found(cs, p, ts, q + 1);
    }
}

/// A run is only ever found at or after the cursor, and within the text:
/// a cursor that follows what it finds never goes backwards.
pub proof fn a_run_is_found_ahead(cs: Seq<char>, from: usize, ts: Seq<char>)
    requires
        encode_utf8(cs).len() <= usize::MAX,
    ensures
        locate_in(cs, from, ts) matches Some(span)
            ==> from <= span.start <= span.end <= encode_utf8(cs).len(),
{
    let l = leading_ws(ts) as int;
    if l < ts.len() && index_at(cs, from as int, 0) is Some {
        lemma_index_at_found(cs, from as int, 0);
        let p = index_at(cs, from as int, 0)->0;
        if first_candidate(cs, p, ts, p) is Some {
            lemma_first_candidate_found(cs, p, ts, p);
            let q = first_candidate(cs, p, ts, p)->0;
            lemma_offsets_grow(cs, p, q - l);
            lemma_offsets_grow(cs, q - l, q - l + ts.len());
        }
    }
}

} // verus!
