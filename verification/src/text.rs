//! Facts about text shared by every module: the bytes of a `str`, where its
//! characters begin, its lines, and its UTF-16 code units.

use vstd::prelude::*;
use vstd::utf8::{valid_utf8, pop_first_scalar, length_of_first_scalar, encode_utf8, encode_scalar, has_width_1_encoding,
    has_width_2_encoding, has_width_3_encoding, is_char_boundary, encode_utf8_valid_utf8,
    is_char_boundary_iff_not_is_continuation_byte, is_char_boundary_start_end_of_seq};
use vstd::string::StringSliceAdditionalSpecFns;

verus! {

/// A byte that continues a multi-byte UTF-8 sequence (`10xxxxxx`).
pub open spec fn is_continuation(b: u8) -> bool {
    0x80 <= b && b <= 0xBF
}

/// Whether `i` is where a character starts in `bytes`, or the end.
pub open spec fn at_boundary(bytes: Seq<u8>, i: int) -> bool {
    i == bytes.len() || (0 <= i < bytes.len() && !is_continuation(bytes[i]))
}

/// UTF-16 code units contributed by a byte of UTF-8: a leading byte of a
/// four-byte sequence starts a surrogate pair, every other leading byte one
/// unit, and continuation bytes none.
pub open spec fn unit_weight(b: u8) -> nat {
    if is_continuation(b) {
        0
    } else if b >= 0xF0 {
        2
    } else {
        1
    }
}

/// UTF-16 code units of the characters whose encodings begin in
/// `bytes[lo..hi)`.
pub open spec fn units_in(bytes: Seq<u8>, lo: int, hi: int) -> nat
    decreases hi - lo,
{
    if hi <= lo {
        0
    } else {
        units_in(bytes, lo, hi - 1) + unit_weight(bytes[hi - 1])
    }
}

/// UTF-16 code units of the characters beginning before byte `k`.
pub open spec fn units_before(bytes: Seq<u8>, k: int) -> nat {
    units_in(bytes, 0, k)
}

/// The start of the character containing byte `k`; `k` itself at a boundary
/// or at or past the end.
pub open spec fn floor_boundary(bytes: Seq<u8>, k: int) -> int
    decreases k,
{
    if k <= 0 || k >= bytes.len() || !is_continuation(bytes[k]) {
        k
    } else {
        floor_boundary(bytes, k - 1)
    }
}

/// Byte offsets where lines begin: `0`, and one past every `\n`.
pub open spec fn line_starts(bytes: Seq<u8>) -> Seq<int>
    decreases bytes.len(),
{
    if bytes.len() == 0 {
        seq![0]
    } else {
        let earlier = line_starts(bytes.drop_last());
        if bytes.last() == 10u8 {
            earlier.push(bytes.len() as int)
        } else {
            earlier
        }
    }
}

/// How many `\n` bytes occur before byte `k`.
pub open spec fn newlines_before(bytes: Seq<u8>, k: int) -> nat
    decreases k,
{
    if k <= 0 {
        0
    } else {
        newlines_before(bytes, k - 1) + if bytes[k - 1] == 10u8 { 1nat } else { 0nat }
    }
}

/// The UTF-16 code units of one character: one below U+10000, a surrogate
/// pair above it.
pub open spec fn char_units(c: char) -> Seq<u16> {
    let v = c as u32;
    if v < 0x10000 {
        seq![v as u16]
    } else {
        seq![
            (0xD800 + ((v - 0x10000) / 0x400)) as u16,
            (0xDC00 + ((v - 0x10000) % 0x400)) as u16,
        ]
    }
}

/// The UTF-16 code units of a character sequence, in order.
pub open spec fn utf16_units(chars: Seq<char>) -> Seq<u16>
    decreases chars.len(),
{
    if chars.len() == 0 {
        seq![]
    } else {
        utf16_units(chars.drop_last()) + char_units(chars.last())
    }
}

pub proof fn lemma_units_in_split(bytes: Seq<u8>, lo: int, mid: int, hi: int)
    requires
        lo <= mid <= hi,
    ensures
        units_in(bytes, lo, hi) == units_in(bytes, lo, mid) + units_in(bytes, mid, hi),
    decreases hi - mid,
{
    if hi > mid {
        lemma_units_in_split(bytes, lo, mid, hi - 1);
    }
}

pub proof fn lemma_units_in_mono(bytes: Seq<u8>, lo: int, mid: int, hi: int)
    requires
        lo <= mid <= hi,
    ensures
        units_in(bytes, lo, mid) <= units_in(bytes, lo, hi),
{
    lemma_units_in_split(bytes, lo, mid, hi);
}

/// Between two boundaries at least one character begins, so the count grows.
pub proof fn lemma_units_strict(bytes: Seq<u8>, a: int, b: int)
    requires
        0 <= a < b <= bytes.len(),
        at_boundary(bytes, a),
    ensures
        units_before(bytes, a) < units_before(bytes, b),
{
    lemma_units_in_split(bytes, 0, a, b);
    lemma_units_in_split(bytes, a, a + 1, b);
    assert(units_in(bytes, a, a) == 0);
    assert(units_in(bytes, a, a + 1) == unit_weight(bytes[a]));
}

pub proof fn lemma_floor_boundary(bytes: Seq<u8>, k: int)
    requires
        0 <= k <= bytes.len(),
    ensures
        0 <= floor_boundary(bytes, k) <= k,
        k > 0 ==> (at_boundary(bytes, floor_boundary(bytes, k)) || floor_boundary(bytes, k) == 0),
        forall|j: int| floor_boundary(bytes, k) < j <= k && j < bytes.len() ==> is_continuation(#[trigger] bytes[j]),
    decreases k,
{
    if k <= 0 || k >= bytes.len() || !is_continuation(bytes[k]) {
    } else {
        lemma_floor_boundary(bytes, k - 1);
    }
}

/// Continuation bytes add no code units.
pub proof fn lemma_units_over_continuations(bytes: Seq<u8>, lo: int, hi: int)
    requires
        lo <= hi,
        forall|j: int| lo <= j < hi ==> is_continuation(#[trigger] bytes[j]),
    ensures
        units_in(bytes, lo, hi) == 0,
    decreases hi - lo,
{
    if hi > lo {
        lemma_units_over_continuations(bytes, lo, hi - 1);
    }
}

pub proof fn lemma_newlines_bound(bytes: Seq<u8>, k: int)
    requires
        0 <= k,
    ensures
        newlines_before(bytes, k) <= k,
    decreases k,
{
    if k > 0 {
        lemma_newlines_bound(bytes, k - 1);
    }
}

pub proof fn lemma_newlines_mono(bytes: Seq<u8>, a: int, b: int)
    requires
        a <= b,
    ensures
        newlines_before(bytes, a) <= newlines_before(bytes, b),
    decreases b - a,
{
    if b > a {
        lemma_newlines_mono(bytes, a, b - 1);
    }
}

/// A `str`'s bytes are valid UTF-8, and there a boundary in vstd's sense is
/// one in ours.
pub proof fn lemma_str_boundary(s: &str, i: int)
    requires
        0 <= i <= s.spec_bytes().len(),
    ensures
        valid_utf8(s.spec_bytes()),
        is_char_boundary(s.spec_bytes(), i) <==> at_boundary(s.spec_bytes(), i),
{
    encode_utf8_valid_utf8(s@);
    if i < s.spec_bytes().len() {
        is_char_boundary_iff_not_is_continuation_byte(s.spec_bytes(), i);
    } else {
        is_char_boundary_start_end_of_seq(s.spec_bytes());
    }
}

/// The length of `s` in bytes.
pub fn str_len(s: &str) -> (n: usize)
    ensures
        n == s.spec_bytes().len(),
{
    s.as_bytes().len()
}

/// Whether byte `i` of `s` is where a character starts, or the end.
pub fn is_boundary(s: &str, i: usize) -> (b: bool)
    ensures
        b == (i <= s.spec_bytes().len() && at_boundary(s.spec_bytes(), i as int)),
{
    if i > str_len(s) {
        return false;
    }
    proof { lemma_str_boundary(s, i as int); }
    s.is_char_boundary(i)
}

/// The text of `s` between two byte offsets, or `None` if they are out of
/// order, out of bounds, or inside a character.
pub fn str_get<'a>(s: &'a str, start: usize, end: usize) -> (r: Option<&'a str>)
    ensures
        r is Some <==> (start <= end <= s.spec_bytes().len()
            && at_boundary(s.spec_bytes(), start as int)
            && at_boundary(s.spec_bytes(), end as int)),
        r matches Some(t) ==> t.spec_bytes() == s.spec_bytes().subrange(start as int, end as int),
{
    if start > end || end > str_len(s) {
        return None;
    }
    if !is_boundary(s, start) || !is_boundary(s, end) {
        return None;
    }
    proof {
        lemma_str_boundary(s, start as int);
        lemma_str_boundary(s, end as int);
    }
    let (head, _) = s.split_at(end);
    proof {
        let hb = s.spec_bytes().subrange(0, end as int);
        assert(head.spec_bytes() == hb);
        // a boundary of the whole is a boundary of a prefix that contains it
        encode_utf8_valid_utf8(head@);
        if (start as int) < end as int {
            is_char_boundary_iff_not_is_continuation_byte(head.spec_bytes(), start as int);
        } else {
            is_char_boundary_start_end_of_seq(head.spec_bytes());
        }
    }
    let (_, tail) = head.split_at(start);
    Some(tail)
}

pub proof fn lemma_newlines_prefix(bytes: Seq<u8>, n: int, b: int)
    requires
        0 <= b <= n <= bytes.len(),
    ensures
        newlines_before(bytes.take(n), b) == newlines_before(bytes, b),
    decreases b,
{
    if b > 0 {
        lemma_newlines_prefix(bytes, n, b - 1);
    }
}

pub proof fn lemma_units_prefix(bytes: Seq<u8>, n: int, lo: int, hi: int)
    requires
        0 <= lo,
        0 <= hi <= n <= bytes.len(),
    ensures
        units_in(bytes.take(n), lo, hi) == units_in(bytes, lo, hi),
    decreases hi - lo,
{
    if hi > lo {
        lemma_units_prefix(bytes, n, lo, hi - 1);
    }
}

/// What the line table is: it starts at zero, rises strictly, stays within
/// the text, has one entry more than there are newlines, and the entry at
/// index `newlines_before(b)` is the start of the line holding byte `b`.
pub proof fn lemma_line_starts(bytes: Seq<u8>)
    ensures
        line_starts(bytes).len() == newlines_before(bytes, bytes.len() as int) + 1,
        line_starts(bytes)[0] == 0,
        forall|i: int, j: int| 0 <= i < j < line_starts(bytes).len()
            ==> line_starts(bytes)[i] < line_starts(bytes)[j],
        forall|i: int| 0 <= i < line_starts(bytes).len()
            ==> 0 <= #[trigger] line_starts(bytes)[i] <= bytes.len(),
        forall|i: int| 0 < i < line_starts(bytes).len()
            ==> bytes[#[trigger] line_starts(bytes)[i] - 1] == 10u8,
        forall|b: int| 0 <= b <= bytes.len() ==> {
            let k = #[trigger] newlines_before(bytes, b);
            &&& k < line_starts(bytes).len()
            &&& line_starts(bytes)[k as int] <= b
            &&& (k + 1 < line_starts(bytes).len() ==> line_starts(bytes)[k + 1int] > b)
        },
    decreases bytes.len(),
{
    if bytes.len() == 0 {
    } else {
        let prev = bytes.drop_last();
        let n = bytes.len() as int;
        lemma_line_starts(prev);
        assert(prev == bytes.take(n - 1));
        assert forall|b: int| 0 <= b <= n - 1 implies newlines_before(prev, b) == newlines_before(bytes, b) by {
            lemma_newlines_prefix(bytes, n - 1, b);
        }
        let ls = line_starts(bytes);
        let lp = line_starts(prev);
        assert(newlines_before(prev, n - 1) == newlines_before(bytes, n - 1));
        assert forall|b: int| 0 <= b <= bytes.len() implies {
            let k = #[trigger] newlines_before(bytes, b);
            &&& k < ls.len()
            &&& ls[k as int] <= b
            &&& (k + 1 < ls.len() ==> ls[k + 1int] > b)
        } by {
            if b < n {
                assert(newlines_before(prev, b) == newlines_before(bytes, b));
            }
        }
    }
}

pub proof fn lemma_units_shift(a: Seq<u8>, b: Seq<u8>, lo: int, hi: int)
    requires
        0 <= lo <= hi <= b.len(),
    ensures
        units_in(a + b, a.len() + lo, a.len() + hi) == units_in(b, lo, hi),
    decreases hi - lo,
{
    if hi > lo {
        lemma_units_shift(a, b, lo, hi - 1);
        assert((a + b)[a.len() + hi - 1] == b[hi - 1]);
    }
}

pub proof fn lemma_units_concat(a: Seq<u8>, b: Seq<u8>)
    ensures
        units_before(a + b, (a + b).len() as int) == units_before(a, a.len() as int) + units_before(b, b.len() as int),
{
    lemma_units_in_split(a + b, 0, a.len() as int, (a + b).len() as int);
    lemma_units_prefix(a + b, a.len() as int, 0, a.len() as int);
    assert((a + b).take(a.len() as int) == a);
    lemma_units_shift(a, b, 0, b.len() as int);
}

pub proof fn lemma_utf16_concat(a: Seq<char>, b: Seq<char>)
    ensures
        utf16_units(a + b) == utf16_units(a) + utf16_units(b),
    decreases b.len(),
{
    if b.len() == 0 {
        assert(a + b == a);
    } else {
        lemma_utf16_concat(a, b.drop_last());
        assert((a + b).drop_last() == a + b.drop_last());
        assert((a + b).last() == b.last());
    }
}

/// The bytes of one character's UTF-8 encoding contribute exactly as many
/// units as its UTF-16 encoding has.
pub proof fn lemma_units_encode_scalar(c: char)
    ensures
        units_before(encode_scalar(c as u32), encode_scalar(c as u32).len() as int) == char_units(c).len(),
        char_units(c).len() <= encode_scalar(c as u32).len(),
{
    let v = c as u32;
    vstd::utf8::char_is_scalar(c);
    let e = encode_scalar(v);
    if has_width_1_encoding(v) {
        assert((v & 0x7F) as u8 <= 0x7F) by (bit_vector);
        assert(units_in(e, 0, 0) == 0);
    } else if has_width_2_encoding(v) {
        assert(0xC0 <= (0xC0 | ((v >> 6) & 0x1F) as u8) <= 0xDF) by (bit_vector);
        assert(0x80 <= (0x80 | (v & 0x3F) as u8) <= 0xBF) by (bit_vector);
        assert(units_in(e, 0, 0) == 0);
        assert(units_in(e, 0, 1) == 1);
    } else if has_width_3_encoding(v) {
        assert(0xE0 <= (0xE0 | ((v >> 12) & 0x0F) as u8) <= 0xEF) by (bit_vector);
        assert(0x80 <= (0x80 | ((v >> 6) & 0x3F) as u8) <= 0xBF) by (bit_vector);
        assert(0x80 <= (0x80 | (v & 0x3F) as u8) <= 0xBF) by (bit_vector);
        assert(units_in(e, 0, 0) == 0);
        assert(units_in(e, 0, 1) == 1);
        assert(units_in(e, 0, 2) == 1);
    } else {
        assert(0xF0 <= (0xF0 | ((v >> 18) & 0x7) as u8) <= 0xF7) by (bit_vector);
        assert(0x80 <= (0x80 | ((v >> 12) & 0x3F) as u8) <= 0xBF) by (bit_vector);
        assert(0x80 <= (0x80 | ((v >> 6) & 0x3F) as u8) <= 0xBF) by (bit_vector);
        assert(0x80 <= (0x80 | (v & 0x3F) as u8) <= 0xBF) by (bit_vector);
        assert(units_in(e, 0, 0) == 0);
        assert(units_in(e, 0, 1) == 2);
        assert(units_in(e, 0, 2) == 2);
        assert(units_in(e, 0, 3) == 2);
    }
}

/// Counting code units off the UTF-8 bytes agrees with encoding the
/// characters as UTF-16.
pub proof fn lemma_units_encode(cs: Seq<char>)
    ensures
        units_before(encode_utf8(cs), encode_utf8(cs).len() as int) == utf16_units(cs).len(),
        utf16_units(cs).len() <= encode_utf8(cs).len(),
    decreases cs.len(),
{
    if cs.len() == 0 {
    } else {
        let rest = cs.drop_first();
        lemma_units_encode(rest);
        lemma_units_encode_scalar(cs[0]);
        lemma_units_concat(encode_scalar(cs[0] as u32), encode_utf8(rest));
        assert(cs == seq![cs[0]] + rest);
        lemma_utf16_concat(seq![cs[0]], rest);
        assert(seq![cs[0]].drop_last() == Seq::<char>::empty());
        assert(utf16_units(Seq::<char>::empty()) == Seq::<u16>::empty());
        assert(Seq::<u16>::empty() + char_units(cs[0]) == char_units(cs[0]));
        assert(utf16_units(seq![cs[0]]) == char_units(cs[0]));
    }
}

pub proof fn lemma_boundary_after_ascii(bytes: Seq<u8>, j: int)
    requires
        valid_utf8(bytes),
        0 <= j < bytes.len(),
        is_char_boundary(bytes, j),
        bytes[j] <= 0x7F,
    ensures
        is_char_boundary(bytes, j + 1),
    decreases bytes.len(),
{
    let rest = pop_first_scalar(bytes);
    if j == 0 {
        assert(length_of_first_scalar(bytes) == 1);
        assert(is_char_boundary(rest, 0));
    } else {
        let l = length_of_first_scalar(bytes);
        assert(is_char_boundary(rest, j - l));
        assert(rest[j - l] == bytes[j]);
        lemma_boundary_after_ascii(rest, j - l);
    }
}

/// In a `str`, every line starts on a character boundary.
pub proof fn lemma_line_start_boundary(s: &str, k: int)
    requires
        0 <= k < line_starts(s.spec_bytes()).len(),
    ensures
        at_boundary(s.spec_bytes(), line_starts(s.spec_bytes())[k]),
{
    let bytes = s.spec_bytes();
    lemma_line_starts(bytes);
    let p = line_starts(bytes)[k];
    encode_utf8_valid_utf8(s@);
    if k == 0 {
        is_char_boundary_start_end_of_seq(bytes);
        lemma_str_boundary(s, 0);
    } else {
        lemma_str_boundary(s, p - 1);
        lemma_boundary_after_ascii(bytes, p - 1);
        lemma_str_boundary(s, p);
    }
}

/// A string with no bytes has no characters.
pub proof fn lemma_empty_bytes(s: &str)
    ensures
        (s.spec_bytes().len() == 0) <==> (s@.len() == 0),
{
    if s@.len() > 0 {
        vstd::utf8::char_is_scalar(s@[0]);
        let v = s@[0] as u32;
        assert(encode_scalar(v).len() > 0);
        assert(s.spec_bytes() == encode_scalar(v) + encode_utf8(s@.drop_first()));
    }
}

/// An ASCII first character is the string's first byte.
pub proof fn lemma_first_char_ascii(s: &str, c: char)
    requires
        s.spec_bytes().len() > 0,
        (c as u32) < 0x80,
    ensures
        (s@.len() > 0 && s@[0] == c) <==> s.spec_bytes()[0] == c as u8,
{
    let v = s@[0] as u32;
    vstd::utf8::char_is_scalar(s@[0]);
    assert(s@.len() > 0);
    assert(s.spec_bytes() == encode_scalar(v) + encode_utf8(s@.drop_first()));
    if has_width_1_encoding(v) {
        assert((v & 0x7F) as u8 == v) by (bit_vector) requires v <= 0x7F;
    } else if has_width_2_encoding(v) {
        assert(0xC0 <= (0xC0 | ((v >> 6) & 0x1F) as u8)) by (bit_vector);
    } else if has_width_3_encoding(v) {
        assert(0xE0 <= (0xE0 | ((v >> 12) & 0x0F) as u8)) by (bit_vector);
    } else {
        assert(0xF0 <= (0xF0 | ((v >> 18) & 0x7) as u8)) by (bit_vector);
    }
    vstd::utf8::char_u32_cast(s@[0], v);
    vstd::utf8::char_u32_cast(c, c as u32);
}

/// Two strings are the same characters exactly when they are the same
/// bytes.
pub proof fn lemma_bytes_eq_chars(a: &str, b: &str)
    ensures
        (a.spec_bytes() == b.spec_bytes()) <==> (a@ == b@),
{
    vstd::utf8::encode_utf8_decode_utf8(a@);
    vstd::utf8::encode_utf8_decode_utf8(b@);
}

/// Whether two strings hold the same text.
pub fn str_eq(a: &str, b: &str) -> (r: bool)
    ensures
        r == (a@ == b@),
        r == (a.spec_bytes() == b.spec_bytes()),
{
    proof { lemma_bytes_eq_chars(a, b); }
    let x = a.as_bytes();
    let y = b.as_bytes();
    if x.len() != y.len() {
        return false;
    }
    let mut i: usize = 0;
    while i < x.len()
        invariant
            x@ == a.spec_bytes(),
            y@ == b.spec_bytes(),
            x@.len() == y@.len(),
            i <= x@.len(),
            forall|j: int| 0 <= j < i ==> x@[j] == y@[j],
        decreases x.len() - i,
    {
        if x[i] != y[i] {
            return false;
        }
        i += 1;
    }
    assert(x@ == y@);
    true
}

/// Whether the bytes of `s` begin with `prefix`.
pub fn bytes_start_with(s: &[u8], prefix: &[u8]) -> (r: bool)
    ensures
        r == (prefix@.len() <= s@.len() && s@.take(prefix@.len() as int) == prefix@),
{
    if prefix.len() > s.len() {
        return false;
    }
    let mut i: usize = 0;
    while i < prefix.len()
        invariant
            prefix@.len() <= s@.len(),
            i <= prefix@.len(),
            forall|j: int| 0 <= j < i ==> s@[j] == prefix@[j],
        decreases prefix.len() - i,
    {
        if s[i] != prefix[i] {
            assert(s@.take(prefix@.len() as int)[i as int] != prefix@[i as int]);
            return false;
        }
        i += 1;
    }
    assert(s@.take(prefix@.len() as int) == prefix@);
    true
}

/// The characters of `s`, in order.
pub fn chars_of(s: &str) -> (r: Vec<char>)
    ensures
        r@ == s@,
{
    let mut out: Vec<char> = Vec::new();
    for c in it: s.chars()
        invariant
            out@ == s@.take(it.index() as int),
            it.seq() == s@,
    {
        proof {
            assert(s@.take(it.index() + 1) == s@.take(it.index() as int).push(c));
        }
        out.push(c);
    }
    proof {
        assert(s@.take(s@.len() as int) == s@);
    }
    out
}

/// The Unicode `White_Space` property: what `char::is_whitespace` tests.
pub open spec fn is_white_space(c: char) -> bool {
    let v = c as u32;
    ||| (0x09 <= v && v <= 0x0D)
    ||| v == 0x20
    ||| v == 0x85
    ||| v == 0xA0
    ||| v == 0x1680
    ||| (0x2000 <= v && v <= 0x200A)
    ||| v == 0x2028
    ||| v == 0x2029
    ||| v == 0x202F
    ||| v == 0x205F
    ||| v == 0x3000
}

pub fn is_whitespace(c: char) -> (b: bool)
    ensures
        b == is_white_space(c),
{
    let v = c as u32;
    (0x09 <= v && v <= 0x0D) || v == 0x20 || v == 0x85 || v == 0xA0 || v == 0x1680
        || (0x2000 <= v && v <= 0x200A) || v == 0x2028 || v == 0x2029 || v == 0x202F
        || v == 0x205F || v == 0x3000
}

/// `cs` with leading and trailing white space removed, as `str::trim` does.
pub open spec fn trim_chars(cs: Seq<char>) -> Seq<char> {
    trim_end_chars(trim_start_chars(cs))
}

pub open spec fn trim_start_chars(cs: Seq<char>) -> Seq<char>
    decreases cs.len(),
{
    if cs.len() > 0 && is_white_space(cs[0]) {
        trim_start_chars(cs.drop_first())
    } else {
        cs
    }
}

pub open spec fn trim_end_chars(cs: Seq<char>) -> Seq<char>
    decreases cs.len(),
{
    if cs.len() > 0 && is_white_space(cs.last()) {
        trim_end_chars(cs.drop_last())
    } else {
        cs
    }
}

/// Bounds of the trimmed part of `cs[lo..hi)`.
pub fn trim_bounds(cs: &Vec<char>, lo: usize, hi: usize) -> (r: (usize, usize))
    requires
        lo <= hi <= cs@.len(),
    ensures
        lo <= r.0 <= r.1 <= hi,
        cs@.subrange(r.0 as int, r.1 as int) == trim_chars(cs@.subrange(lo as int, hi as int)),
{
    let mut a = lo;
    while a < hi && is_whitespace(cs[a])
        invariant
            lo <= a <= hi <= cs@.len(),
            trim_start_chars(cs@.subrange(lo as int, hi as int)) == trim_start_chars(cs@.subrange(a as int, hi as int)),
        decreases hi - a,
    {
        assert(cs@.subrange(a as int, hi as int).drop_first() == cs@.subrange(a + 1, hi as int));
        a += 1;
    }
    let mut b = hi;
    while b > a && is_whitespace(cs[b - 1])
        invariant
            lo <= a <= b <= hi <= cs@.len(),
            trim_end_chars(cs@.subrange(a as int, hi as int)) == trim_end_chars(cs@.subrange(a as int, b as int)),
        decreases b,
    {
        assert(cs@.subrange(a as int, b as int).drop_last() == cs@.subrange(a as int, b - 1));
        b -= 1;
    }
    (a, b)
}

/// The UTF-8 encoding of `a` then `b` is the two encodings one after another.
pub proof fn lemma_encode_concat(a: Seq<char>, b: Seq<char>)
    ensures
        encode_utf8(a + b) == encode_utf8(a) + encode_utf8(b),
    decreases a.len(),
{
    if a.len() == 0 {
        assert(a + b == b);
        assert(Seq::<u8>::empty() + encode_utf8(b) == encode_utf8(b));
    } else {
        lemma_encode_concat(a.drop_first(), b);
        assert((a + b).drop_first() == a.drop_first() + b);
        assert((a + b)[0] == a[0]);
    }
}

/// Where the `k`th character of `cs` begins in its UTF-8 encoding.
pub open spec fn byte_offset(cs: Seq<char>, k: int) -> int {
    encode_utf8(cs.take(k)).len() as int
}

/// Each character's encoding follows the encoding of the characters before it.
pub proof fn lemma_byte_offset_step(cs: Seq<char>, k: int)
    requires
        0 <= k < cs.len(),
    ensures
        byte_offset(cs, k + 1) == byte_offset(cs, k) + encode_scalar(cs[k] as u32).len(),
        byte_offset(cs, k + 1) <= encode_utf8(cs).len(),
{
    lemma_encode_concat(cs.take(k), seq![cs[k]]);
    assert(cs.take(k + 1) == cs.take(k) + seq![cs[k]]);
    assert(seq![cs[k]].drop_first() == Seq::<char>::empty());
    assert(seq![cs[k]][0] == cs[k]);
    assert(encode_utf8(seq![cs[k]]) == encode_scalar(cs[k] as u32) + encode_utf8(Seq::<char>::empty()));
    assert(encode_utf8(seq![cs[k]]) == encode_scalar(cs[k] as u32));
    lemma_encode_concat(cs.take(k + 1), cs.skip(k + 1));
    assert(cs.take(k + 1) + cs.skip(k + 1) == cs);
}

/// `char::len_utf8`: how many bytes a character takes in UTF-8.
pub fn len_utf8(c: char) -> (n: usize)
    ensures
        n == encode_scalar(c as u32).len(),
        1 <= n <= 4,
{
    let v = c as u32;
    proof {
        vstd::utf8::char_is_scalar(c);
    }
    if v <= 0x7F {
        1
    } else if v <= 0x7FF {
        2
    } else if v <= 0xFFFF {
        3
    } else {
        4
    }
}

/// `cs[lo..hi)` as a string.
pub fn string_from(cs: &Vec<char>, lo: usize, hi: usize) -> (r: String)
    requires
        lo <= hi <= cs@.len(),
    ensures
        r@ == cs@.subrange(lo as int, hi as int),
{
    let mut s = String::new();
    let mut i = lo;
    while i < hi
        invariant
            lo <= i <= hi <= cs@.len(),
            s@ == cs@.subrange(lo as int, i as int),
        decreases hi - i,
    {
        crate::fmt::push_char(&mut s, cs[i]);
        assert(cs@.subrange(lo as int, i + 1) == cs@.subrange(lo as int, i as int).push(cs@[i as int]));
        i += 1;
    }
    s
}

/// Byte offsets grow with the character index.
pub proof fn lemma_offsets_grow(cs: Seq<char>, a: int, b: int)
    requires
        0 <= a <= b <= cs.len(),
    ensures
        byte_offset(cs, a) <= byte_offset(cs, b) <= encode_utf8(cs).len(),
    decreases b - a,
{
    if a < b {
        lemma_byte_offset_step(cs, b - 1);
        lemma_offsets_grow(cs, a, b - 1);
    } else {
        lemma_encode_concat(cs.take(b), cs.skip(b));
        assert(cs.take(b) + cs.skip(b) == cs);
    }
}

} // verus!
