//! Scripture references, as a person types them: `GEN 1:1`, `Gen 1.1`,
//! `1:1`, `3`, in any script's decimal digits.

use vstd::prelude::*;
use vstd::utf8::{char_u32_cast, is_scalar};
use crate::fmt::{decimal, push_char, push_decimal, push_str};
use crate::span::ByteSpan;
use crate::text::{chars_of, is_white_space, is_whitespace, str_eq, string_from, trim_bounds, trim_chars, trim_start_chars};
use crate::unicode::{char_from_u32, is_numeric, numeric};
use crate::verse::{entry_views, first_covering, verse_text, EntryView, VerseIndex};

verus! {

/// Whether the code point `v` is a character with a Unicode number category.
pub open spec fn numeric_at(v: int) -> bool {
    0 <= v <= 0xFFFF_FFFF && is_scalar(v as u32) && numeric((v as u32) as char)
}

/// Where the run of numeric code points that holds `v` begins.
pub open spec fn run_start(v: int) -> int
    decreases v,
{
    if v > 0 && numeric_at(v - 1) {
        run_start(v - 1)
    } else {
        v
    }
}

/// Where the run of numeric code points that holds `v` ends (exclusive).
pub open spec fn run_end(v: int) -> int
    decreases 0x10FFFF - v,
{
    if v < 0x10FFFF && numeric_at(v + 1) {
        run_end(v + 1)
    } else {
        v + 1
    }
}

/// The value of a decimal digit in any script. An ASCII digit is itself.
/// Any other numeric character is found from the run of numeric code points
/// around it, since decimal digits come in contiguous runs of ten, ascending
/// from zero: it is a digit when it is among the first ten of a run at least
/// ten long, or when its run is made of whole tens (scripts whose digit sets
/// follow one another, such as the mathematical digits); its value is its
/// distance from the run's start, counted in tens. Roman numerals (a run of
/// fifty-one) and `¼½¾` (a run of three) are not digits.
pub open spec fn decimal_digit(c: char) -> Option<u32> {
    if '0' <= c && c <= '9' {
        Some((c as u32 - 48) as u32)
    } else if !numeric(c) {
        None
    } else {
        let v = c as u32 as int;
        let s = run_start(v);
        let len = run_end(v) - s;
        if (v - s < 10 && len >= 10) || len % 10 == 0 {
            Some(((v - s) % 10) as u32)
        } else {
            None
        }
    }
}

/// Whether every character is a decimal digit of some script.
pub open spec fn all_decimal(cs: Seq<char>) -> bool {
    forall|i: int| 0 <= i < cs.len() ==> #[trigger] decimal_digit(cs[i]) is Some
}

/// The value of a run of decimal digits.
pub open spec fn decimal_digits_value(cs: Seq<char>) -> nat
    decreases cs.len(),
{
    if cs.len() == 0 {
        0
    } else {
        decimal_digits_value(cs.drop_last()) * 10 + (decimal_digit(cs.last())->0) as nat
    }
}

/// A non-empty run of decimal digits, from any mix of scripts, whose value
/// fits a chapter number.
pub open spec fn parse_decimal(cs: Seq<char>) -> Option<u16> {
    if cs.len() > 0 && all_decimal(cs) && decimal_digits_value(cs) <= 65535 {
        Some(decimal_digits_value(cs) as u16)
    } else {
        None
    }
}

proof fn lemma_decimal_grow(cs: Seq<char>, k: int)
    requires
        0 <= k <= cs.len(),
        all_decimal(cs),
    ensures
        decimal_digits_value(cs.take(k)) <= decimal_digits_value(cs),
    decreases cs.len() - k,
{
    if k < cs.len() {
        lemma_decimal_grow(cs, k + 1);
        assert(cs.take(k + 1).drop_last() == cs.take(k));
    } else {
        assert(cs.take(k) == cs);
    }
}

/// Whether the code point below `v` is numeric.
fn numeric_below(v: u32) -> (b: bool)
    ensures
        b == numeric_at(v - 1),
{
    if v == 0 {
        return false;
    }
    match char_from_u32(v - 1) {
        Some(c) => {
            proof {
                char_u32_cast(c, (v - 1) as u32);
            }
            is_numeric(c)
        },
        None => false,
    }
}

/// The value of a decimal digit in any script, found from Unicode's own
/// structure rather than a table of scripts.
pub fn decimal_value(character: char) -> (r: Option<u32>)
    ensures
        r == decimal_digit(character),
{
    if '0' <= character && character <= '9' {
        return Some(character as u32 - 48);
    }
    if !is_numeric(character) {
        return None;
    }
    let code = character as u32;
    let mut start: u32 = code;
    while start > 0 && numeric_below(start)
        invariant
            start <= code,
            code <= 0x10FFFF,
            run_start(code as int) == run_start(start as int),
        decreases start,
    {
        start -= 1;
    }
    let mut last: u32 = code;
    while last < 0x10FFFF && numeric_below(last + 2)
        invariant
            code <= last <= 0x10FFFF,
            run_end(code as int) == run_end(last as int),
        decreases 0x10FFFF - last,
    {
        last += 1;
    }
    assert(run_start(code as int) == start);
    assert(run_end(code as int) == last + 1);
    let len = last + 1 - start;
    let back = code - start;
    if (back < 10 && len >= 10) || len % 10 == 0 {
        Some(back % 10)
    } else {
        None
    }
}

/// Reads `cs[lo..hi)` as a run of digits from any scripts.
fn parse_decimal_in(cs: &Vec<char>, lo: usize, hi: usize) -> (r: Option<u16>)
    requires
        lo <= hi <= cs@.len(),
    ensures
        r == parse_decimal(cs@.subrange(lo as int, hi as int)),
{
    let ghost digits = cs@.subrange(lo as int, hi as int);
    if lo == hi {
        return None;
    }
    let mut i = lo;
    let mut value: u32 = 0;
    assert(cs@.subrange(lo as int, lo as int) == Seq::<char>::empty());
    while i < hi
        invariant
            lo <= i <= hi <= cs@.len(),
            digits == cs@.subrange(lo as int, hi as int),
            digits.len() > 0,
            forall|j: int| lo <= j < i ==> #[trigger] decimal_digit(cs@[j]) is Some,
            value == decimal_digits_value(cs@.subrange(lo as int, i as int)),
            value <= 65535,
        decreases hi - i,
    {
        let d = match decimal_value(cs[i]) {
            Some(d) => d,
            None => {
                let ghost k: int = i - lo;
                assert(decimal_digit(digits[k]) is None);
                return None;
            },
        };
        assert(d <= 9);
        assert(cs@.subrange(lo as int, i + 1).drop_last() == cs@.subrange(lo as int, i as int));
        let next = value * 10 + d;
        if next > 65535 {
            proof {
                assert(digits.take(i + 1 - lo) == cs@.subrange(lo as int, i + 1));
                if all_decimal(digits) {
                    lemma_decimal_grow(digits, (i + 1 - lo) as int);
                }
            }
            return None;
        }
        value = next;
        i += 1;
    }
    assert(cs@.subrange(lo as int, hi as int) == digits);
    assert forall|j: int| 0 <= j < digits.len() implies #[trigger] decimal_digit(digits[j]) is Some by {
        assert(digits[j] == cs@[lo + j]);
    }
    Some(value as u16)
}

/// Reads a run of digits from any scripts as a number: `None` when the text
/// is empty, holds anything that is not a digit, or names a number too large
/// for a chapter.
pub fn parse_digits(text: &str) -> (r: Option<u16>)
    ensures
        r == parse_decimal(text@),
{
    let cs = chars_of(text);
    assert(cs@.subrange(0, cs@.len() as int) == text@);
    parse_decimal_in(&cs, 0, cs.len())
}

/// A reference someone has typed.
#[derive(Debug, Clone, PartialEq, Eq)]
pub struct Reference {
    /// The book code, upper-cased; `None` when the reference names none.
    pub book: Option<String>,
    pub chapter: u16,
    /// `None` for a bare chapter, which means the top of it.
    pub verse: Option<u16>,
    /// The verse exactly as typed, for the `\vp` fallback.
    pub verse_text: Option<String>,
}

/// A reference as contracts speak of it.
pub struct ReferenceView {
    pub book: Option<Seq<char>>,
    pub chapter: u16,
    pub verse: Option<u16>,
    pub verse_text: Option<Seq<char>>,
}

/// The characters of an optional string.
pub open spec fn opt_text(s: Option<String>) -> Option<Seq<char>> {
    match s {
        Some(t) => Some(t@),
        None => None,
    }
}

impl View for Reference {
    type V = ReferenceView;

    open spec fn view(&self) -> ReferenceView {
        ReferenceView {
            book: opt_text(self.book),
            chapter: self.chapter,
            verse: self.verse,
            verse_text: opt_text(self.verse_text),
        }
    }
}

/// The view of an optional reference.
pub open spec fn opt_reference(r: Option<Reference>) -> Option<ReferenceView> {
    match r {
        Some(x) => Some(x@),
        None => None,
    }
}

/// A character upper-cased if it is an ASCII letter.
pub open spec fn ascii_upper(c: char) -> char {
    if 'a' <= c && c <= 'z' {
        ((c as u32) - 32) as char
    } else {
        c
    }
}

/// Text with its ASCII letters upper-cased.
pub open spec fn upper_text(cs: Seq<char>) -> Seq<char> {
    cs.map_values(|c: char| ascii_upper(c))
}

/// The index of the first white-space character.
pub open spec fn first_white_space(cs: Seq<char>) -> Option<int>
    decreases cs.len(),
{
    if cs.len() == 0 {
        None
    } else if is_white_space(cs[0]) {
        Some(0)
    } else {
        match first_white_space(cs.drop_first()) {
            Some(i) => Some(i + 1),
            None => None,
        }
    }
}

/// Whether a character separates chapter from verse: `:` or `.`.
pub open spec fn is_separator(c: char) -> bool {
    c == ':' || c == '.'
}

/// The index of the first `:` or `.`.
pub open spec fn first_separator(cs: Seq<char>) -> Option<int>
    decreases cs.len(),
{
    if cs.len() == 0 {
        None
    } else if is_separator(cs[0]) {
        Some(0)
    } else {
        match first_separator(cs.drop_first()) {
            Some(i) => Some(i + 1),
            None => None,
        }
    }
}

/// Parses `GEN 1:1`, `Gen 1.1`, `1:1`, `3`, or a bare book code.
///
/// A first token followed by white space is the book when it is not a
/// number. The rest splits at the first `:` or `.` into chapter and verse,
/// each trimmed. A chapter that is not a number leaves one reading: a bare
/// book code, meaning its first chapter, when no book was taken already and
/// there is no separator. An empty verse, `1:`, means the chapter.
pub open spec fn parse_reference(text: Seq<char>) -> Option<ReferenceView> {
    let t = trim_chars(text);
    if t.len() == 0 {
        None
    } else {
        let split = first_white_space(t);
        let takes_book = match split {
            Some(i) => parse_decimal(t.take(i)) is None,
            None => false,
        };
        let book = if takes_book { Some(upper_text(t.take(split->0))) } else { None };
        let rest = if takes_book { trim_start_chars(t.skip(split->0 + 1)) } else { t };
        let sep = first_separator(rest);
        let chapter_text = match sep {
            Some(j) => trim_chars(rest.take(j)),
            None => trim_chars(rest),
        };
        let typed = match sep {
            Some(j) => Some(trim_chars(rest.skip(j + 1))),
            None => None,
        };
        match parse_decimal(chapter_text) {
            None => if book is None && typed is None && chapter_text.len() > 0 {
                Some(ReferenceView {
                    book: Some(upper_text(chapter_text)),
                    chapter: 1,
                    verse: None,
                    verse_text: None,
                })
            } else {
                None
            },
            Some(chapter) => {
                let verse_text = match typed {
                    Some(v) => if v.len() > 0 { Some(v) } else { None },
                    None => None,
                };
                Some(ReferenceView {
                    book,
                    chapter,
                    verse: match verse_text {
                        Some(v) => parse_decimal(v),
                        None => None,
                    },
                    verse_text,
                })
            },
        }
    }
}

/// The index of the first white-space character in `cs[lo..hi)`, or `hi`.
fn find_white_space_in(cs: &Vec<char>, lo: usize, hi: usize) -> (r: usize)
    requires
        lo <= hi <= cs@.len(),
    ensures
        lo <= r <= hi,
        r < hi ==> first_white_space(cs@.subrange(lo as int, hi as int)) == Some(r - lo),
        r == hi ==> first_white_space(cs@.subrange(lo as int, hi as int)) is None,
{
    let mut i = lo;
    while i < hi && !is_whitespace(cs[i])
        invariant
            lo <= i <= hi <= cs@.len(),
            first_white_space(cs@.subrange(lo as int, hi as int)) == match first_white_space(cs@.subrange(i as int, hi as int)) {
                Some(j) => Some(j + (i - lo)),
                None => None,
            },
        decreases hi - i,
    {
        assert(cs@.subrange(i as int, hi as int).drop_first() == cs@.subrange(i + 1, hi as int));
        i += 1;
    }
    i
}

/// The index of the first `:` or `.` in `cs[lo..hi)`, or `hi`.
fn find_separator_in(cs: &Vec<char>, lo: usize, hi: usize) -> (r: usize)
    requires
        lo <= hi <= cs@.len(),
    ensures
        lo <= r <= hi,
        r < hi ==> first_separator(cs@.subrange(lo as int, hi as int)) == Some(r - lo),
        r == hi ==> first_separator(cs@.subrange(lo as int, hi as int)) is None,
{
    let mut i = lo;
    while i < hi && !(cs[i] == ':' || cs[i] == '.')
        invariant
            lo <= i <= hi <= cs@.len(),
            first_separator(cs@.subrange(lo as int, hi as int)) == match first_separator(cs@.subrange(i as int, hi as int)) {
                Some(j) => Some(j + (i - lo)),
                None => None,
            },
        decreases hi - i,
    {
        assert(cs@.subrange(i as int, hi as int).drop_first() == cs@.subrange(i + 1, hi as int));
        i += 1;
    }
    i
}

/// Where `cs[lo..hi)` begins once leading white space is skipped.
fn trim_start_in(cs: &Vec<char>, lo: usize, hi: usize) -> (r: usize)
    requires
        lo <= hi <= cs@.len(),
    ensures
        lo <= r <= hi,
        cs@.subrange(r as int, hi as int) == trim_start_chars(cs@.subrange(lo as int, hi as int)),
{
    let mut a = lo;
    while a < hi && is_whitespace(cs[a])
        invariant
            lo <= a <= hi <= cs@.len(),
            trim_start_chars(cs@.subrange(lo as int, hi as int)) == trim_start_chars(cs@.subrange(a as int, hi as int)),
        decreases hi - a,
    {
        assert(cs@.subrange(a as int, hi as int).drop_first() == cs@.subrange(a + 1, hi as int));
        a += 1;
    }
    a
}

/// `cs[lo..hi)` with its ASCII letters upper-cased.
fn upper_in(cs: &Vec<char>, lo: usize, hi: usize) -> (r: String)
    requires
        lo <= hi <= cs@.len(),
    ensures
        r@ == upper_text(cs@.subrange(lo as int, hi as int)),
{
    let mut s = String::new();
    let mut i = lo;
    while i < hi
        invariant
            lo <= i <= hi <= cs@.len(),
            s@ == upper_text(cs@.subrange(lo as int, i as int)),
        decreases hi - i,
    {
        let c = cs[i];
        let u = if 'a' <= c && c <= 'z' {
            match char_from_u32(c as u32 - 32) {
                Some(u) => u,
                None => c,
            }
        } else {
            c
        };
        proof {
            if 'a' <= c && c <= 'z' {
                let v = (c as u32 - 32) as u32;
                assert(is_scalar(v));
                char_u32_cast(u, v);
            }
            assert(u == ascii_upper(c));
        }
        push_char(&mut s, u);
        assert(upper_text(cs@.subrange(lo as int, i + 1)) =~= upper_text(cs@.subrange(lo as int, i as int)).push(u));
        i += 1;
    }
    s
}

impl Reference {
    /// Parses the accepted forms, and nothing else.
    pub fn parse(text: &str) -> (r: Option<Self>)
        ensures
            opt_reference(r) == parse_reference(text@),
    {
        let cs = chars_of(text);
        let n = cs.len();
        let (a, b) = trim_bounds(&cs, 0, n);
        assert(cs@.subrange(0, n as int) == text@);
        let ghost t = cs@.subrange(a as int, b as int);
        if a == b {
            return None;
        }
        let ws = find_white_space_in(&cs, a, b);
        let mut book: Option<String> = None;
        let mut r0 = a;
        if ws < b {
            assert(t.take(ws - a) == cs@.subrange(a as int, ws as int));
            if parse_decimal_in(&cs, a, ws).is_none() {
                book = Some(upper_in(&cs, a, ws));
                assert(t.skip(ws - a + 1) == cs@.subrange(ws + 1, b as int));
                r0 = trim_start_in(&cs, ws + 1, b);
            }
        }
        let ghost rest = cs@.subrange(r0 as int, b as int);
        let sep = find_separator_in(&cs, r0, b);
        let (c0, c1) = if sep < b {
            assert(rest.take(sep - r0) == cs@.subrange(r0 as int, sep as int));
            trim_bounds(&cs, r0, sep)
        } else {
            trim_bounds(&cs, r0, b)
        };
        match parse_decimal_in(&cs, c0, c1) {
            None => {
                if book.is_none() && sep == b && c0 < c1 {
                    let code = upper_in(&cs, c0, c1);
                    return Some(Reference { book: Some(code), chapter: 1, verse: None, verse_text: None });
                }
                None
            },
            Some(chapter) => {
                let mut verse: Option<u16> = None;
                let mut verse_text: Option<String> = None;
                if sep < b {
                    let (v0, v1) = trim_bounds(&cs, sep + 1, b);
                    assert(rest.skip(sep - r0 + 1) == cs@.subrange(sep + 1, b as int));
                    if v0 < v1 {
                        verse = parse_decimal_in(&cs, v0, v1);
                        verse_text = Some(string_from(&cs, v0, v1));
                    }
                }
                Some(Reference { book, chapter, verse, verse_text })
            },
        }
    }
}

/// What came of looking a reference up. Each failure has its own thing to
/// tell the user; being in the wrong file matters most.
#[derive(Debug, Clone, PartialEq, Eq)]
pub enum Resolution {
    Found(ByteSpan),
    Unparseable,
    WrongBook { document: Option<String>, asked: String },
    NoSuchChapter(u16),
    NoSuchVerse { chapter: u16, verse: String },
}

/// A resolution as contracts speak of it.
pub enum ResolutionView {
    Found(ByteSpan),
    Unparseable,
    WrongBook { document: Option<Seq<char>>, asked: Seq<char> },
    NoSuchChapter(u16),
    NoSuchVerse { chapter: u16, verse: Seq<char> },
}

impl View for Resolution {
    type V = ResolutionView;

    open spec fn view(&self) -> ResolutionView {
        match self {
            Resolution::Found(span) => ResolutionView::Found(*span),
            Resolution::Unparseable => ResolutionView::Unparseable,
            Resolution::WrongBook { document, asked } => ResolutionView::WrongBook {
                document: opt_text(*document),
                asked: asked@,
            },
            Resolution::NoSuchChapter(c) => ResolutionView::NoSuchChapter(*c),
            Resolution::NoSuchVerse { chapter, verse } => ResolutionView::NoSuchVerse {
                chapter: *chapter,
                verse: verse@,
            },
        }
    }
}

/// The characters of an optional string slice.
pub open spec fn opt_str(s: Option<&str>) -> Option<Seq<char>> {
    match s {
        Some(t) => Some(t@),
        None => None,
    }
}

/// A character lower-cased if it is an ASCII letter.
pub open spec fn ascii_lower(c: char) -> char {
    if 'A' <= c && c <= 'Z' {
        ((c as u32) + 32) as char
    } else {
        c
    }
}

/// Whether two texts are equal once ASCII letters are compared without case.
pub open spec fn same_ignoring_ascii_case(a: Seq<char>, b: Seq<char>) -> bool {
    a.len() == b.len() && forall|i: int| 0 <= i < a.len() ==> #[trigger] ascii_lower(a[i]) == ascii_lower(b[i])
}

/// Whether an entry's `\vp` matches what was typed in this chapter: the same
/// text, or the same number when both read as numbers.
pub open spec fn published_matches(e: EntryView, chapter: u16, typed: Seq<char>) -> bool {
    e.chapter == chapter && match e.published {
        Some(p) => p == typed || (parse_decimal(typed) is Some && parse_decimal(p) == parse_decimal(typed)),
        None => false,
    }
}

/// The first entry from index `from` on whose `\vp` matches.
pub open spec fn first_published(es: Seq<EntryView>, chapter: u16, typed: Seq<char>, from: int) -> Option<int>
    decreases es.len() - from,
{
    if from < 0 || from >= es.len() {
        None
    } else if published_matches(es[from], chapter, typed) {
        Some(from)
    } else {
        first_published(es, chapter, typed, from + 1)
    }
}

/// How a reference resolves in a document whose entries are `es` and whose
/// `\id` book is `book`, where `start` is where the chapter begins, if it
/// exists. A named book that differs from the document's is the wrong book;
/// a bare chapter is its start; a verse is found by number, then by its
/// published number; failing that, the chapter or the verse is missing.
pub open spec fn resolution_for(
    r: ReferenceView,
    es: Seq<EntryView>,
    book: Option<Seq<char>>,
    start: Option<ByteSpan>,
) -> ResolutionView {
    if r.book is Some && book is Some && !same_ignoring_ascii_case(book->0, r.book->0) {
        ResolutionView::WrongBook { document: book, asked: r.book->0 }
    } else {
        match r.verse_text {
            None => match start {
                Some(span) => ResolutionView::Found(span),
                None => ResolutionView::NoSuchChapter(r.chapter),
            },
            Some(typed) => {
                let by_number = match r.verse {
                    Some(v) => first_covering(es, r.chapter, v, 0),
                    None => None,
                };
                match by_number {
                    Some(i) => ResolutionView::Found(es[i].span),
                    None => match first_published(es, r.chapter, typed, 0) {
                        Some(i) => ResolutionView::Found(es[i].span),
                        None => match start {
                            None => ResolutionView::NoSuchChapter(r.chapter),
                            Some(_) => ResolutionView::NoSuchVerse { chapter: r.chapter, verse: typed },
                        },
                    },
                }
            },
        }
    }
}

/// `str::eq_ignore_ascii_case`.
pub(crate) fn eq_ignore_ascii_case(a: &str, b: &str) -> (r: bool)
    ensures
        r == same_ignoring_ascii_case(a@, b@),
{
    let x = chars_of(a);
    let y = chars_of(b);
    if x.len() != y.len() {
        return false;
    }
    let mut i: usize = 0;
    while i < x.len()
        invariant
            i <= x@.len() == y@.len(),
            x@ == a@,
            y@ == b@,
            forall|j: int| 0 <= j < i ==> #[trigger] ascii_lower(x@[j]) == ascii_lower(y@[j]),
        decreases x.len() - i,
    {
        let p = x[i];
        let q = y[i];
        let lp = if 'A' <= p && p <= 'Z' { p as u32 + 32 } else { p as u32 };
        let lq = if 'A' <= q && q <= 'Z' { q as u32 + 32 } else { q as u32 };
        proof {
            vstd::utf8::char_u32_cast(p, p as u32);
            vstd::utf8::char_u32_cast(q, q as u32);
            assert(ascii_lower(p) as u32 == lp) by {
                if 'A' <= p && p <= 'Z' {
                    assert(is_scalar(lp));
                    vstd::utf8::char_is_scalar(p);
                }
            }
        }
        if lp != lq {
            proof {
                vstd::utf8::char_is_scalar(ascii_lower(p));
                vstd::utf8::char_is_scalar(ascii_lower(q));
            }
            assert(ascii_lower(x@[i as int]) != ascii_lower(y@[i as int]));
            return false;
        }
        i += 1;
    }
    true
}

/// A verse whose `\vp` matches what was typed, compared by value as well as
/// by text, so `3` finds a Tamil `\vp ௩`.
fn find_published(index: &VerseIndex, chapter: u16, typed: &str) -> (r: Option<ByteSpan>)
    ensures
        match first_published(index@, chapter, typed@, 0) {
            Some(i) => r == Some(index@[i].span),
            None => r is None,
        },
{
    let wanted = parse_digits(typed);
    let entries = index.entries();
    let mut i: usize = 0;
    while i < entries.len()
        invariant
            i <= entries@.len(),
            entry_views(entries@) == index@,
            wanted == parse_decimal(typed@),
            first_published(index@, chapter, typed@, 0) == first_published(index@, chapter, typed@, i as int),
        decreases entries.len() - i,
    {
        let entry = &entries[i];
        assert(index@[i as int] == entry@);
        if entry.chapter == chapter {
            if let Some(published) = &entry.published {
                let p = published.as_str();
                let same = str_eq(p, typed) || (wanted.is_some() && parse_digits(p) == wanted);
                if same {
                    return Some(ByteSpan { start: entry.span.start, end: entry.span.end });
                }
            }
        }
        i += 1;
    }
    None
}

/// Looks a reference up, given where its chapter begins (`None` when the
/// document has no such chapter).
pub fn resolve_with(
    reference: &Reference,
    index: &VerseIndex,
    book: Option<&str>,
    chapter_span: Option<ByteSpan>,
) -> (r: Resolution)
    ensures
        r@ == resolution_for(reference@, index@, opt_str(book), chapter_span),
{
    if let Some(asked) = &reference.book {
        if let Some(document) = book {
            if !eq_ignore_ascii_case(document, asked.as_str()) {
                return Resolution::WrongBook { document: Some(document.to_owned()), asked: asked.clone() };
            }
        }
    }
    let typed = match &reference.verse_text {
        Some(t) => t.as_str(),
        None => {
            return match chapter_span {
                Some(span) => Resolution::Found(span),
                None => Resolution::NoSuchChapter(reference.chapter),
            };
        },
    };
    if let Some(verse) = reference.verse {
        if let Some(entry) = index.find(reference.chapter, verse) {
            return Resolution::Found(ByteSpan { start: entry.span.start, end: entry.span.end });
        }
    }
    if let Some(span) = find_published(index, reference.chapter, typed) {
        return Resolution::Found(span);
    }
    match chapter_span {
        None => Resolution::NoSuchChapter(reference.chapter),
        Some(_) => Resolution::NoSuchVerse { chapter: reference.chapter, verse: typed.to_owned() },
    }
}

/// Looks a reference up in a verse index. `chapter_start` says where a
/// chapter begins, which the index does not know: a chapter with no verses
/// still has a place.
pub fn resolve(
    reference: &Reference,
    index: &VerseIndex,
    book: Option<&str>,
    chapter_start: impl Fn(u16) -> Option<ByteSpan>,
) -> (r: Resolution)
    requires
        call_requires(chapter_start, (reference.chapter,)),
    ensures
        exists|start: Option<ByteSpan>|
            call_ensures(chapter_start, (reference.chapter,), start)
                && r@ == resolution_for(reference@, index@, opt_str(book), start),
{
    let start = chapter_start(reference.chapter);
    resolve_with(reference, index, book, start)
}

/// The last entry among the first `n` that starts at or before `offset`.
pub open spec fn last_starting_by(es: Seq<EntryView>, offset: usize, n: int) -> Option<int>
    decreases n,
{
    if n <= 0 || n > es.len() {
        None
    } else if es[n - 1].span.start <= offset {
        Some(n - 1)
    } else {
        last_starting_by(es, offset, n - 1)
    }
}

/// How a position reads as a reference: the last verse starting at or
/// before it, unless that verse is in another chapter than the one the
/// position is in, when the chapter alone is the answer. The published
/// number is shown where there is one.
pub open spec fn reference_text(
    es: Seq<EntryView>,
    book: Option<Seq<char>>,
    offset: usize,
    chapter: Option<u16>,
) -> Option<Seq<char>> {
    let found = match last_starting_by(es, offset, es.len() as int) {
        Some(i) => if chapter is None || chapter->0 == es[i].chapter { Some(i) } else { None },
        None => None,
    };
    match found {
        None => match chapter {
            None => None,
            Some(c) => Some(match book {
                Some(b) => b + " "@ + decimal(c as nat),
                None => decimal(c as nat),
            }),
        },
        Some(i) => {
            let e = es[i];
            let verse = match e.published {
                Some(p) => p,
                None => verse_text(e.verse),
            };
            Some(match book {
                Some(b) => b + " "@ + decimal(e.chapter as nat) + ":"@ + verse,
                None => decimal(e.chapter as nat) + ":"@ + verse,
            })
        },
    }
}

/// How a position reads as a reference, for the status bar.
pub fn reference_at(index: &VerseIndex, book: Option<&str>, offset: usize, chapter: Option<u16>) -> (r: Option<String>)
    ensures
        opt_text(r) == reference_text(index@, opt_str(book), offset, chapter),
{
    let entries = index.entries();
    let mut n = entries.len();
    while n > 0 && entries[n - 1].span.start > offset
        invariant
            n <= entries@.len(),
            entry_views(entries@) == index@,
            last_starting_by(index@, offset, entries@.len() as int) == last_starting_by(index@, offset, n as int),
        decreases n,
    {
        assert(index@[n - 1] == entries@[n - 1]@);
        n -= 1;
    }
    proof {
        if n > 0 {
            assert(index@[n - 1] == entries@[n - 1]@);
        }
    }
    let mut s = String::new();
    if n > 0 {
        let entry = &entries[n - 1];
        assert(index@[n - 1] == entry@);
        let same = match chapter {
            Some(c) => c == entry.chapter,
            None => true,
        };
        if same {
            if let Some(b) = book {
                push_str(&mut s, b);
                push_char(&mut s, ' ');
            }
            push_decimal(&mut s, entry.chapter as u64);
            push_char(&mut s, ':');
            match &entry.published {
                Some(p) => push_str(&mut s, p.as_str()),
                None => entry.verse.push_to(&mut s),
            }
            proof {
                reveal_strlit(" ");
                reveal_strlit(":");
                let verse = match entry@.published {
                    Some(p) => p,
                    None => verse_text(entry.verse),
                };
                match book {
                    Some(b) => assert(s@ =~= b@ + " "@ + decimal(entry.chapter as nat) + ":"@ + verse),
                    None => assert(s@ =~= decimal(entry.chapter as nat) + ":"@ + verse),
                }
            }
            return Some(s);
        }
    }
    match chapter {
        None => None,
        Some(c) => {
            if let Some(b) = book {
                push_str(&mut s, b);
                push_char(&mut s, ' ');
            }
            push_decimal(&mut s, c as u64);
            proof {
                reveal_strlit(" ");
                match book {
                    Some(b) => assert(s@ =~= b@ + " "@ + decimal(c as nat)),
                    None => assert(s@ =~= decimal(c as nat)),
                }
            }
            Some(s)
        },
    }
}


/// Runs whose characters are digits of the same values have the same value.
proof fn lemma_digits_value_alike(a: Seq<char>, b: Seq<char>)
    requires
        a.len() == b.len(),
        forall|i: int| 0 <= i < a.len() ==> #[trigger] decimal_digit(a[i]) == decimal_digit(b[i]),
    ensures
        decimal_digits_value(a) == decimal_digits_value(b),
    decreases a.len(),
{
    if a.len() > 0 {
        assert forall|i: int| 0 <= i < a.drop_last().len()
            implies #[trigger] decimal_digit(a.drop_last()[i]) == decimal_digit(b.drop_last()[i]) by {
            assert(decimal_digit(a[i]) == decimal_digit(b[i]));
        }
        lemma_digits_value_alike(a.drop_last(), b.drop_last());
        assert(decimal_digit(a[a.len() - 1]) == decimal_digit(b[b.len() - 1]));
    }
}

/// A number reads the same in every script: two runs whose characters are,
/// place by place, digits of the same value (or alike not digits) parse to
/// the same number, so twelve in Arabic-Indic digits and `12` are the same
/// chapter.
pub proof fn numbers_read_alike_in_any_script(a: Seq<char>, b: Seq<char>)
    requires
        a.len() == b.len(),
        forall|i: int| 0 <= i < a.len() ==> #[trigger] decimal_digit(a[i]) == decimal_digit(b[i]),
    ensures
        parse_decimal(a) == parse_decimal(b),
{
    lemma_digits_value_alike(a, b);
    assert(all_decimal(a) <==> all_decimal(b)) by {
        if all_decimal(a) {
            assert forall|i: int| 0 <= i < b.len() implies #[trigger] decimal_digit(b[i]) is Some by {
                assert(decimal_digit(a[i]) is Some);
            }
        }
        if all_decimal(b) {
            assert forall|i: int| 0 <= i < a.len() implies #[trigger] decimal_digit(a[i]) is Some by {
                assert(decimal_digit(b[i]) is Some);
            }
        }
    }
}

} // verus!
