//! USFM versions, and how a document's version is discovered.

use vstd::prelude::*;
use crate::text::{chars_of, trim_bounds, trim_chars};

verus! {

/// A USFM version, as `major.minor`.
#[derive(Debug, Clone, Copy, PartialEq, Eq, PartialOrd, Ord, Hash)]
pub struct Version {
    pub major: u8,
    pub minor: u8,
}

/// Whether a character is an ASCII digit.
pub open spec fn is_digit(c: char) -> bool {
    '0' <= c && c <= '9'
}

/// The value of a run of ASCII digits.
pub open spec fn digits_value(cs: Seq<char>) -> nat
    decreases cs.len(),
{
    if cs.len() == 0 {
        0
    } else {
        digits_value(cs.drop_last()) * 10 + ((cs.last() as u32) - 48) as nat
    }
}

/// What `u8::from_str` accepts: an optional `+`, then one or more ASCII
/// digits whose value fits in a byte.
pub open spec fn parse_u8(cs: Seq<char>) -> Option<u8> {
    if all_digits(unsigned_part(cs)) && digits_value(unsigned_part(cs)) <= 255 {
        Some(digits_value(unsigned_part(cs)) as u8)
    } else {
        None
    }
}

/// The text after an optional leading `+`.
pub open spec fn unsigned_part(cs: Seq<char>) -> Seq<char> {
    if cs.len() > 0 && cs[0] == '+' { cs.drop_first() } else { cs }
}

/// One or more ASCII digits and nothing else.
pub open spec fn all_digits(cs: Seq<char>) -> bool {
    cs.len() > 0 && forall|i: int| 0 <= i < cs.len() ==> is_digit(#[trigger] cs[i])
}

/// The index of the first occurrence of `c`, if any.
pub open spec fn find_char(cs: Seq<char>, c: char) -> Option<int>
    decreases cs.len(),
{
    if cs.len() == 0 {
        None
    } else if cs[0] == c {
        Some(0)
    } else {
        match find_char(cs.drop_first(), c) {
            Some(i) => Some(i + 1),
            None => None,
        }
    }
}

pub proof fn lemma_find_char(cs: Seq<char>, c: char)
    ensures
        find_char(cs, c) matches Some(i) ==> 0 <= i < cs.len() && cs[i] == c
            && forall|j: int| 0 <= j < i ==> cs[j] != c,
        find_char(cs, c) is None ==> forall|j: int| 0 <= j < cs.len() ==> cs[j] != c,
    decreases cs.len(),
{
    if cs.len() > 0 {
        lemma_find_char(cs.drop_first(), c);
        if cs[0] != c {
            assert forall|j: int| 0 < j < cs.len() implies cs[j] == cs.drop_first()[j - 1] by {}
        }
    }
}

/// The text up to the first `c`, or all of it.
pub open spec fn before_char(cs: Seq<char>, c: char) -> Seq<char> {
    match find_char(cs, c) {
        Some(i) => cs.take(i),
        None => cs,
    }
}

/// `3.1`, `3`, or `3.1.2` — the last taking only the first two components.
pub open spec fn parse_version(text: Seq<char>) -> Option<Version> {
    let t = trim_chars(text);
    match parse_u8(before_char(t, '.')) {
        None => None,
        Some(major) => match find_char(t, '.') {
            None => Some(Version { major, minor: 0 }),
            Some(i) => match parse_u8(before_char(t.skip(i + 1), '.')) {
                None => None,
                Some(minor) => Some(Version { major, minor }),
            },
        },
    }
}

/// The lines of a text as `str::lines` yields them: split after each `\n`,
/// with the `\n` and a `\r` before it removed; no empty line after a final
/// newline.
pub open spec fn text_lines(cs: Seq<char>) -> Seq<Seq<char>>
    decreases cs.len(),
{
    if cs.len() == 0 {
        Seq::empty()
    } else {
        match find_char(cs, '\n') {
            None => seq![cs],
            Some(i) => {
                proof { lemma_find_char(cs, '\n'); }
                let line = cs.take(i);
                let line = if line.len() > 0 && line.last() == '\r' { line.drop_last() } else { line };
                seq![line] + text_lines(cs.skip(i + 1))
            },
        }
    }
}

/// The version declared in a run of header lines: the first `\usfm` line
/// (followed by a space or tab) before any `\c` line.
pub open spec fn declared_in(lines: Seq<Seq<char>>) -> Option<Version>
    decreases lines.len(),
{
    if lines.len() == 0 {
        None
    } else {
        let line = lines[0];
        if (line.len() >= 3 && line.take(3) == "\\c "@) || line == "\\c"@ {
            None
        } else if line.len() > 5 && line.take(5) == "\\usfm"@ && (line[5] == ' ' || line[5] == '\t') {
            parse_version(line.skip(5))
        } else {
            declared_in(lines.drop_first())
        }
    }
}

/// The index of the first `c` in `cs[from..to)`, or `to`.
pub fn find_in(cs: &Vec<char>, c: char, from: usize, to: usize) -> (r: usize)
    requires
        from <= to <= cs@.len(),
    ensures
        from <= r <= to,
        r < to ==> find_char(cs@.subrange(from as int, to as int), c) == Some(r - from),
        r == to ==> find_char(cs@.subrange(from as int, to as int), c) is None,
        r < to ==> cs@[r as int] == c,
{
    let mut i = from;
    while i < to && cs[i] != c
        invariant
            from <= i <= to <= cs@.len(),
            find_char(cs@.subrange(from as int, to as int), c) == match find_char(cs@.subrange(i as int, to as int), c) {
                Some(j) => Some(j + (i - from)),
                None => None,
            },
        decreases to - i,
    {
        assert(cs@.subrange(i as int, to as int).drop_first() == cs@.subrange(i + 1, to as int));
        i += 1;
    }
    proof {
        lemma_find_char(cs@.subrange(i as int, to as int), c);
    }
    i
}

/// `u8::from_str` over `cs[lo..hi)`.
fn parse_u8_in(cs: &Vec<char>, lo: usize, hi: usize) -> (r: Option<u8>)
    requires
        lo <= hi <= cs@.len(),
    ensures
        r == parse_u8(cs@.subrange(lo as int, hi as int)),
{
    let ghost whole = cs@.subrange(lo as int, hi as int);
    let mut i = lo;
    if i < hi && cs[i] == '+' {
        i += 1;
        assert(whole.drop_first() == cs@.subrange(i as int, hi as int));
    }
    let ghost digits = cs@.subrange(i as int, hi as int);
    assert(digits == unsigned_part(whole));
    if i == hi {
        return None;
    }
    let start = i;
    let mut value: u32 = 0;
    assert(cs@.subrange(start as int, start as int) == Seq::<char>::empty());
    while i < hi
        invariant
            lo <= start <= i <= hi <= cs@.len(),
            digits == cs@.subrange(start as int, hi as int),
            digits.len() > 0,
            digits == unsigned_part(whole),
            whole == cs@.subrange(lo as int, hi as int),
            forall|j: int| start <= j < i ==> is_digit(#[trigger] cs@[j]),
            value == digits_value(cs@.subrange(start as int, i as int)),
            value <= 255,
        decreases hi - i,
    {
        let c = cs[i];
        if !('0' <= c && c <= '9') {
            let ghost k: int = i - start;
            assert(!is_digit(digits[k]));
            assert(!all_digits(digits));

            return None;
        }
        let d: u32 = (c as u32) - 48;
        assert(cs@.subrange(start as int, i + 1).drop_last() == cs@.subrange(start as int, i as int));
        let next = value * 10 + d;
        if next > 255 {
            proof {
                assert(digits.take(i + 1 - start) == cs@.subrange(start as int, i + 1));
                if all_digits(digits) {
                    lemma_digits_grow(digits, (i + 1 - start) as int);
                }
            }
            return None;
        }
        value = next;
        i += 1;
    }
    assert(cs@.subrange(start as int, hi as int) == digits);
    assert forall|j: int| 0 <= j < digits.len() implies is_digit(#[trigger] digits[j]) by {
        assert(digits[j] == cs@[start + j]);
    }
    Some(value as u8)
}

/// A longer run of digits is worth at least as much as its prefix.
pub proof fn lemma_digits_grow(cs: Seq<char>, k: int)
    requires
        0 <= k <= cs.len(),
        forall|j: int| 0 <= j < cs.len() ==> is_digit(#[trigger] cs[j]),
    ensures
        digits_value(cs.take(k)) <= digits_value(cs),
    decreases cs.len() - k,
{
    if k < cs.len() {
        lemma_digits_grow(cs, k + 1);
        assert(cs.take(k + 1).drop_last() == cs.take(k));
    } else {
        assert(cs.take(k) == cs);
    }
}

/// [`parse_version`] over `cs[lo..hi)`.
fn parse_version_in(cs: &Vec<char>, lo: usize, hi: usize) -> (r: Option<Version>)
    requires
        lo <= hi <= cs@.len(),
    ensures
        r == parse_version(cs@.subrange(lo as int, hi as int)),
{
    let (a, b) = trim_bounds(cs, lo, hi);
    let ghost t = cs@.subrange(a as int, b as int);
    let dot = find_in(cs, '.', a, b);
    assert(before_char(t, '.') == cs@.subrange(a as int, dot as int));
    let major = match parse_u8_in(cs, a, dot) {
        Some(m) => m,
        None => return None,
    };
    if dot == b {
        return Some(Version { major, minor: 0 });
    }
    let rest = dot + 1;
    assert(t.skip(dot - a + 1) == cs@.subrange(rest as int, b as int));
    let dot2 = find_in(cs, '.', rest, b);
    assert(before_char(cs@.subrange(rest as int, b as int), '.') == cs@.subrange(rest as int, dot2 as int));
    match parse_u8_in(cs, rest, dot2) {
        Some(minor) => Some(Version { major, minor }),
        None => None,
    }
}

impl Version {
    pub fn new(major: u8, minor: u8) -> (v: Self)
        ensures
            v.major == major,
            v.minor == minor,
    {
        Version { major, minor }
    }

    /// 1.0.
    pub fn v1_0() -> (v: Self) ensures v.major == 1 && v.minor == 0 { Version { major: 1, minor: 0 } }

    /// 2.0.
    pub fn v2_0() -> (v: Self) ensures v.major == 2 && v.minor == 0 { Version { major: 2, minor: 0 } }

    /// 3.0.
    pub fn v3_0() -> (v: Self) ensures v.major == 3 && v.minor == 0 { Version { major: 3, minor: 0 } }

    /// 3.1.
    pub fn v3_1() -> (v: Self) ensures v.major == 3 && v.minor == 1 { Version { major: 3, minor: 1 } }

    /// What the engine targets, and the default when a document says
    /// nothing: 3.1.
    pub fn target() -> (v: Self) ensures v.major == 3 && v.minor == 1 { Version { major: 3, minor: 1 } }

    /// What a document is assumed to be when it carries no `\usfm` line:
    /// 3.0, the version that introduced the marker.
    pub fn assumed() -> (v: Self) ensures v.major == 3 && v.minor == 0 { Version { major: 3, minor: 0 } }

    /// Parses `3.1`, `3`, or `3.1.2`, after trimming white space.
    pub fn parse(text: &str) -> (r: Option<Self>)
        ensures
            r == parse_version(text@),
    {
        let cs = chars_of(text);
        assert(cs@.subrange(0, cs@.len() as int) == text@);
        parse_version_in(&cs, 0, cs.len())
    }

    /// The version a document declares, if it declares one: only the lines
    /// before the first chapter are searched.
    #[verifier::rlimit(50)]
    #[verifier::spinoff_prover]
    pub fn detect(source: &str) -> (r: Option<Self>)
        ensures
            r == declared_in(text_lines(source@)),
    {
        let cs = chars_of(source);
        let n = cs.len();
        let mut at: usize = 0;
        assert(cs@.skip(0) == source@);
        while at < n
            invariant
                at <= n == cs@.len(),
                declared_in(text_lines(source@)) == declared_in(text_lines(cs@.skip(at as int))),
            decreases n - at,
        {
            let ghost rest = cs@.skip(at as int);
            let nl = find_in(&cs, '\n', at, n);
            assert(cs@.subrange(at as int, n as int) == rest);
            let mut end = nl;
            if nl < n && end > at && cs[end - 1] == '\r' {
                end = end - 1;
            }
            let ghost line = cs@.subrange(at as int, end as int);
            proof {
                if nl < n {
                    assert(rest.take(nl - at) == cs@.subrange(at as int, nl as int));
                    assert(rest.skip(nl - at + 1) == cs@.skip(nl + 1));
                    if end < nl {
                        assert(cs@.subrange(at as int, nl as int).drop_last() == line);
                    }
                } else {
                    assert(line == rest);
                }
                assert(text_lines(rest)[0] == line);
            }
            let len = end - at;
            let is_chapter = (len >= 3 && cs[at] == '\\' && cs[at + 1] == 'c' && cs[at + 2] == ' ')
                || (len == 2 && cs[at] == '\\' && cs[at + 1] == 'c');
            proof {
                reveal_strlit("\\c ");
                reveal_strlit("\\c");
                reveal_strlit("\\usfm");
                if len >= 3 {
                    assert(line.take(3) == seq![line[0], line[1], line[2]]);
                }
                if len >= 5 {
                    assert(line.take(5) == seq![line[0], line[1], line[2], line[3], line[4]]);
                }
            }
            if is_chapter {
                proof {
                    assert(text_lines(rest).len() > 0);
                    if len >= 3 && cs[at as int] == '\\' && cs[at + 1] == 'c' && cs[at + 2] == ' ' {
                        assert(line.take(3) =~= "\\c "@);
                    } else {
                        assert(line =~= "\\c"@);
                    }
                }
                return None;
            }
            proof {
                if len >= 3 {
                    assert(line.take(3) != "\\c "@ || line[2] == ' ');
                }
                if line == "\\c"@ {
                    assert(line.len() == 2 && line[0] == '\\' && line[1] == 'c');
                }
            }
            if len > 5 && cs[at] == '\\' && cs[at + 1] == 'u' && cs[at + 2] == 's' && cs[at + 3] == 'f'
                && cs[at + 4] == 'm' && (cs[at + 5] == ' ' || cs[at + 5] == '\t') {
                assert(line.skip(5) == cs@.subrange(at + 5, end as int));
                proof {
                    assert(text_lines(rest).len() > 0);
                    assert(line.take(5) =~= "\\usfm"@);
                }
                return parse_version_in(&cs, at + 5, end);
            }
            if nl == n {
                proof {
                    assert(text_lines(rest) == seq![line]);
                    assert(seq![line].drop_first() == Seq::<Seq<char>>::empty());
                    if line.len() >= 3 && line.take(3) == "\\c "@ {
                        assert(line.take(3)[0] == line[0] && line.take(3)[1] == line[1] && line.take(3)[2] == line[2]);
                        assert(false);
                    }
                    if line.len() > 5 && line.take(5) == "\\usfm"@ && (line[5] == ' ' || line[5] == '\t') {
                        assert(line.take(5)[0] == line[0] && line.take(5)[1] == line[1] && line.take(5)[2] == line[2]);
                        assert(line.take(5)[3] == line[3] && line.take(5)[4] == line[4]);
                        assert(false);
                    }
                    assert(declared_in(seq![line]) == declared_in(Seq::<Seq<char>>::empty()));
                }
                return None;
            }
            assert(text_lines(rest).drop_first() == text_lines(cs@.skip(nl + 1)));
            at = nl + 1;
        }
        None
    }

    /// The declared version, or the assumed one.
    pub fn of(source: &str) -> (v: Self)
        ensures
            v == match declared_in(text_lines(source@)) {
                Some(d) => d,
                None => Version { major: 3, minor: 0 },
            },
    {
        match Self::detect(source) {
            Some(v) => v,
            None => Self::assumed(),
        }
    }
}

} // verus!
