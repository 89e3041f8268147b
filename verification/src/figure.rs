//! Where a `\fig` reference may point: a file in the document's own folder,
//! and nothing else.
//!
//! A figure path is untrusted text from the document. It is decoded the way
//! a URL would be (up to three rounds, so doubly encoded traversal cannot
//! slip through), refused if it names a scheme, and then read component by
//! component: a root, a drive, or a `..` anywhere refuses it, and `.` and
//! empty components are dropped. What is left is a path below the folder.

use vstd::prelude::*;
use vstd::string::StringSliceAdditionalSpecFns;
use vstd::utf8::{decode_utf8, encode_utf8, encode_utf8_decode_utf8, valid_utf8};
use crate::fidelity::str_from_utf8;
use crate::fmt::{decimal, push_decimal, push_str};
use crate::text::{chars_of, string_from, trim_bounds, trim_chars};

verus! {

/// Why a figure was not served.
#[derive(Debug, Clone, Copy, PartialEq, Eq, Structural)]
pub enum Refusal {
    /// Not a local file in the document's folder.
    NotLocal,
    /// The document has never been saved, so it has no folder.
    NoDirectory,
    /// No open document has that id.
    Unknown,
    /// Larger than the limit of 20 MB.
    TooLarge { bytes: u64 },
    Missing,
}

/// What a refusal says.
pub open spec fn refusal_message(r: Refusal) -> Seq<char> {
    match r {
        Refusal::NotLocal => "not a local file in the document's folder"@,
        Refusal::NoDirectory => "save the document first"@,
        Refusal::Unknown => "that document is not open"@,
        Refusal::TooLarge { bytes } => "larger than 20 MB ("@ + decimal(bytes as nat) + " bytes)"@,
        Refusal::Missing => "not found"@,
    }
}

impl Refusal {
    pub fn to_string(&self) -> (s: String)
        ensures
            s@ == refusal_message(*self),
    {
        let mut s = String::new();
        match self {
            Refusal::NotLocal => push_str(&mut s, "not a local file in the document's folder"),
            Refusal::NoDirectory => push_str(&mut s, "save the document first"),
            Refusal::Unknown => push_str(&mut s, "that document is not open"),
            Refusal::TooLarge { bytes } => {
                push_str(&mut s, "larger than 20 MB (");
                push_decimal(&mut s, *bytes);
                push_str(&mut s, " bytes)");
            },
            Refusal::Missing => push_str(&mut s, "not found"),
        }
        proof {
            let e = Seq::<char>::empty();
            assert(e + "not a local file in the document's folder"@ == "not a local file in the document's folder"@);
            assert(e + "save the document first"@ == "save the document first"@);
            assert(e + "that document is not open"@ == "that document is not open"@);
            assert(e + "larger than 20 MB ("@ == "larger than 20 MB ("@);
            assert(e + "not found"@ == "not found"@);
        }
        s
    }
}

/// The value of an ASCII hex digit.
pub open spec fn hex_value(b: u8) -> Option<u8> {
    if 48 <= b <= 57 {
        Some((b - 48) as u8)
    } else if 97 <= b <= 102 {
        Some((b - 87) as u8)
    } else if 65 <= b <= 70 {
        Some((b - 55) as u8)
    } else {
        None
    }
}

/// What `u8::from_str_radix(.., 16)` gives for two bytes: two hex digits,
/// or a `+` sign and one.
pub open spec fn hex_pair(a: u8, b: u8) -> Option<u8> {
    match (hex_value(a), hex_value(b)) {
        (Some(x), Some(y)) => Some((x * 16 + y) as u8),
        (None, Some(y)) => if a == 43u8 { Some(y) } else { None },
        _ => None,
    }
}

/// The bytes from `i` on with each `%XX` replaced by the byte it encodes,
/// or `None` if a `%` is not followed by an encoding.
pub open spec fn percent_from(b: Seq<u8>, i: int) -> Option<Seq<u8>>
    decreases b.len() - i,
{
    if i < 0 || i >= b.len() {
        Some(Seq::empty())
    } else if b[i] == 37u8 {
        if i + 3 <= b.len() {
            match (hex_pair(b[i + 1], b[i + 2]), percent_from(b, i + 3)) {
                (Some(v), Some(r)) => Some(seq![v] + r),
                _ => None,
            }
        } else {
            None
        }
    } else {
        match percent_from(b, i + 1) {
            Some(r) => Some(seq![b[i]] + r),
            None => None,
        }
    }
}

/// One round of decoding a text: its percent-decoded bytes, if they are
/// well formed and valid UTF-8.
pub open spec fn decode_once(cs: Seq<char>) -> Option<Seq<char>> {
    match percent_from(encode_utf8(cs), 0) {
        Some(b) => if valid_utf8(b) { Some(decode_utf8(b)) } else { None },
        None => None,
    }
}

/// Up to `n` rounds of decoding, stopping early when a round changes
/// nothing.
pub open spec fn decode_rounds(cs: Seq<char>, n: nat) -> Option<Seq<char>>
    decreases n,
{
    if n == 0 {
        Some(cs)
    } else {
        match decode_once(cs) {
            None => None,
            Some(next) => if next == cs { Some(cs) } else { decode_rounds(next, (n - 1) as nat) },
        }
    }
}

/// `rest` with `head` in front, if there is a `rest`.
pub open spec fn lead(head: Seq<u8>, rest: Option<Seq<u8>>) -> Option<Seq<u8>> {
    match rest {
        Some(r) => Some(head + r),
        None => None,
    }
}

fn hex_digit(b: u8) -> (r: Option<u8>)
    ensures
        r == hex_value(b),
{
    if 48 <= b && b <= 57 {
        Some(b - 48)
    } else if 97 <= b && b <= 102 {
        Some(b - 87)
    } else if 65 <= b && b <= 70 {
        Some(b - 55)
    } else {
        None
    }
}

fn pair_value(a: u8, b: u8) -> (r: Option<u8>)
    ensures
        r == hex_pair(a, b),
{
    match (hex_digit(a), hex_digit(b)) {
        (Some(x), Some(y)) => Some(x * 16 + y),
        (None, Some(y)) => if a == 43u8 { Some(y) } else { None },
        _ => None,
    }
}

/// One round of percent-decoding.
fn percent_decode(raw: &str) -> (r: Option<String>)
    ensures
        match r {
            Some(s) => decode_once(raw@) == Some(s@),
            None => decode_once(raw@) is None,
        },
{
    let b = raw.as_bytes();
    let n = b.len();
    let mut out: Vec<u8> = Vec::new();
    let mut at: usize = 0;
    assert(out@ + percent_from(b@, 0).unwrap_or(Seq::empty()) =~= percent_from(b@, 0).unwrap_or(Seq::empty()));
    while at < n
        invariant
            at <= n == b@.len(),
            b@ == raw.spec_bytes(),
            percent_from(b@, 0) == lead(out@, percent_from(b@, at as int)),
        decreases n - at,
    {
        if b[at] == 37u8 {
            if n - at < 3 {
                return None;
            }
            match pair_value(b[at + 1], b[at + 2]) {
                Some(v) => {
                    let ghost before = out@;
                    out.push(v);
                    assert(before + (seq![v] + percent_from(b@, at + 3).unwrap_or(Seq::empty()))
                        =~= out@ + percent_from(b@, at + 3).unwrap_or(Seq::empty()));
                    at += 3;
                },
                None => {
                    return None;
                },
            }
        } else {
            let ghost before = out@;
            out.push(b[at]);
            assert(before + (seq![b@[at as int]] + percent_from(b@, at + 1).unwrap_or(Seq::empty()))
                =~= out@ + percent_from(b@, at + 1).unwrap_or(Seq::empty()));
            at += 1;
        }
    }
    assert(out@ + Seq::<u8>::empty() =~= out@);
    match str_from_utf8(out.as_slice()) {
        Ok(s) => {
            proof {
                encode_utf8_decode_utf8(s@);
            }
            Some(s.to_owned())
        },
        Err(_) => None,
    }
}

/// Up to three rounds of decoding, as far as they change anything.
fn decode(raw: &str) -> (r: Option<String>)
    ensures
        match r {
            Some(s) => decode_rounds(raw@, 3) == Some(s@),
            None => decode_rounds(raw@, 3) is None,
        },
{
    let mut current = raw.to_owned();
    let mut round: usize = 0;
    while round < 3
        invariant
            round <= 3,
            decode_rounds(raw@, 3) == decode_rounds(current@, (3 - round) as nat),
        decreases 3 - round,
    {
        let next = match percent_decode(current.as_str()) {
            Some(s) => s,
            None => {
                return None;
            },
        };
        if crate::text::str_eq(next.as_str(), current.as_str()) {
            return Some(current);
        }
        current = next;
        round += 1;
    }
    Some(current)
}


/// A character that may continue a URL scheme.
pub open spec fn scheme_char(c: char) -> bool {
    ('0' <= c && c <= '9') || ('a' <= c && c <= 'z') || ('A' <= c && c <= 'Z') || c == '+' || c == '-' || c == '.'
}

/// Where `c` first occurs in `p` at or after `i`, or `p.len()`.
pub open spec fn next_of(p: Seq<char>, i: int, c: char) -> int
    decreases p.len() - i,
{
    if i < 0 || i >= p.len() {
        p.len() as int
    } else if p[i] == c {
        i
    } else {
        next_of(p, i + 1, c)
    }
}

pub proof fn lemma_next_of(p: Seq<char>, i: int, c: char)
    requires
        0 <= i <= p.len(),
        i == p.len() || p[i] == c,
    ensures
        next_of(p, i, c) == i,
{
}

/// Whether a path starts with a URL scheme: a letter, then letters,
/// digits, `+`, `-` or `.`, up to the first `:`. A drive letter (`C:`) is
/// one too, which is what refuses it on every platform.
pub open spec fn has_scheme(p: Seq<char>) -> bool {
    let k = next_of(p, 0, ':');
    &&& k < p.len()
    &&& k > 0
    &&& (('a' <= p[0] && p[0] <= 'z') || ('A' <= p[0] && p[0] <= 'Z'))
    &&& forall|j: int| 0 <= j < k ==> scheme_char(#[trigger] p[j])
}

/// A path separator, in either spelling.
pub open spec fn is_sep(c: char) -> bool {
    c == '/' || c == '\\'
}

/// Where the next separator at or after `i` is, or `p.len()`.
pub open spec fn next_sep(p: Seq<char>, i: int) -> int
    decreases p.len() - i,
{
    if i < 0 || i >= p.len() {
        p.len() as int
    } else if is_sep(p[i]) {
        i
    } else {
        next_sep(p, i + 1)
    }
}

pub proof fn lemma_next_sep(p: Seq<char>, i: int)
    requires
        0 <= i <= p.len(),
    ensures
        i <= next_sep(p, i) <= p.len(),
        next_sep(p, i) < p.len() ==> is_sep(p[next_sep(p, i)]),
        forall|j: int| i <= j < next_sep(p, i) ==> !is_sep(#[trigger] p[j]),
    decreases p.len() - i,
{
    if i < p.len() && !is_sep(p[i]) {
        lemma_next_sep(p, i + 1);
    }
}

/// The components of `p` from `i` on that stay below the folder: empty and
/// `.` components are dropped, and a `..` refuses the whole path.
pub open spec fn parts_from(p: Seq<char>, i: int) -> Option<Seq<Seq<char>>>
    decreases p.len() + 1 - i,
{
    if i < 0 || i > p.len() {
        Some(Seq::empty())
    } else {
        let k = next_sep(p, i);
        proof {
            lemma_next_sep(p, i);
        }
        let seg = p.subrange(i, k);
        let rest = if k < p.len() { parts_from(p, k + 1) } else { Some(Seq::empty()) };
        if seg == ".."@ {
            None
        } else {
            match rest {
                None => None,
                Some(r) => if seg.len() == 0 || seg == "."@ { Some(r) } else { Some(seq![seg] + r) },
            }
        }
    }
}

/// Components joined with `/`.
pub open spec fn joined(parts: Seq<Seq<char>>) -> Seq<char>
    decreases parts.len(),
{
    if parts.len() == 0 {
        Seq::empty()
    } else if parts.len() == 1 {
        parts[0]
    } else {
        parts[0] + "/"@ + joined(parts.drop_first())
    }
}

/// A relative path below `dir`, as joining the two gives it.
pub open spec fn join_dir(dir: Seq<char>, rel: Seq<char>) -> Seq<char> {
    if dir.len() == 0 {
        rel
    } else if dir.last() == '/' {
        dir + rel
    } else {
        dir + "/"@ + rel
    }
}

/// Where a figure reference resolves to, or why it does not.
pub open spec fn resolution(dir: Seq<char>, asked: Seq<char>) -> Result<Seq<char>, Refusal> {
    match decode_rounds(asked, 3) {
        None => Err(Refusal::NotLocal),
        Some(d) => {
            let t = trim_chars(d);
            if t.len() == 0 || has_scheme(t) || is_sep(t[0]) {
                Err(Refusal::NotLocal)
            } else {
                match parts_from(t, 0) {
                    Some(parts) => if parts.len() > 0 {
                        Ok(join_dir(dir, joined(parts)))
                    } else {
                        Err(Refusal::NotLocal)
                    },
                    None => Err(Refusal::NotLocal),
                }
            }
        },
    }
}

/// Whether `cs[lo..hi)` starts with a URL scheme.
fn scheme_at(cs: &Vec<char>, lo: usize, hi: usize) -> (b: bool)
    requires
        lo <= hi <= cs@.len(),
    ensures
        b == has_scheme(cs@.subrange(lo as int, hi as int)),
{
    let ghost p = cs@.subrange(lo as int, hi as int);
    let mut k = lo;
    while k < hi && cs[k] != ':'
        invariant
            lo <= k <= hi <= cs@.len(),
            p == cs@.subrange(lo as int, hi as int),
            next_of(p, 0, ':') == next_of(p, k - lo, ':'),
        decreases hi - k,
    {
        assert(p[k - lo] == cs@[k as int]);
        k += 1;
    }
    proof {
        if k < hi {
            assert(p[k - lo] == cs@[k as int]);
        }
    }
    proof {
        lemma_next_of(p, k - lo, ':');
    }
    if k == hi || k == lo {
        return false;
    }
    let first = cs[lo];
    assert(p[0] == first);
    if !(('a' <= first && first <= 'z') || ('A' <= first && first <= 'Z')) {
        return false;
    }
    let mut j = lo;
    while j < k
        invariant
            lo <= j <= k < hi <= cs@.len(),
            p == cs@.subrange(lo as int, hi as int),
            next_of(p, 0, ':') == k - lo,
            forall|m: int| 0 <= m < j - lo ==> scheme_char(#[trigger] p[m]),
        decreases k - j,
    {
        let c = cs[j];
        assert(p[j - lo] == c);
        if !(('0' <= c && c <= '9') || ('a' <= c && c <= 'z') || ('A' <= c && c <= 'Z') || c == '+' || c == '-' || c == '.') {
            return false;
        }
        j += 1;
    }
    true
}

/// The parts of `cs[lo..hi)` that stay below the folder, or `None` if a
/// `..` would leave it.
fn parts_at(cs: &Vec<char>, lo: usize, hi: usize) -> (r: Option<Vec<String>>)
    requires
        lo <= hi <= cs@.len(),
    ensures
        match r {
            Some(v) => parts_from(cs@.subrange(lo as int, hi as int), 0) == Some(v@.map_values(|s: String| s@)),
            None => parts_from(cs@.subrange(lo as int, hi as int), 0) is None,
        },
{
    let ghost p = cs@.subrange(lo as int, hi as int);
    let mut out: Vec<String> = Vec::new();
    let mut i = lo;
    assert(out@.map_values(|s: String| s@) =~= Seq::<Seq<char>>::empty());
    loop
        invariant
            lo <= i <= hi <= cs@.len(),
            p == cs@.subrange(lo as int, hi as int),
            parts_from(p, 0) == match parts_from(p, i - lo) {
                Some(r) => Some(out@.map_values(|s: String| s@) + r),
                None => None::<Seq<Seq<char>>>,
            },
        decreases hi - i,
    {
        let mut k = i;
        while k < hi && cs[k] != '/' && cs[k] != '\\'
            invariant
                lo <= i <= k <= hi <= cs@.len(),
                p == cs@.subrange(lo as int, hi as int),
                next_sep(p, i - lo) == next_sep(p, k - lo),
            decreases hi - k,
        {
            assert(p[k - lo] == cs@[k as int]);
            k += 1;
        }
        proof {
            if k < hi {
                assert(p[k - lo] == cs@[k as int]);
            }
            lemma_next_sep(p, i - lo);
        }
        let ghost seg = p.subrange(i - lo, k - lo);
        assert(seg =~= cs@.subrange(i as int, k as int));
        let ghost views = out@.map_values(|s: String| s@);
        if k - i == 2 && cs[i] == '.' && cs[i + 1] == '.' {
            proof {
                reveal_strlit("..");
                assert(seg =~= ".."@);
            }
            return None;
        }
        proof {
            reveal_strlit("..");
            reveal_strlit(".");
            if seg == ".."@ {
                assert(seg[0] == cs@[i as int] && seg[1] == cs@[i + 1]);
            }
        }
        if !(k == i || (k - i == 1 && cs[i] == '.')) {
            proof {
                if seg == "."@ {
                    assert(seg[0] == cs@[i as int]);
                }
            }
            let part = string_from(cs, i, k);
            out.push(part);
            assert(out@.map_values(|s: String| s@) =~= views.push(seg));
        } else {
            proof {
                if k - i == 1 {
                    assert(seg =~= "."@);
                }
            }
        }
        if k == hi {
            proof {
                let now = out@.map_values(|s: String| s@);
                assert(now + Seq::<Seq<char>>::empty() =~= now);
                if !(seg.len() == 0 || seg == "."@) {
                    assert(views + (seq![seg] + Seq::<Seq<char>>::empty()) =~= now);
                }
            }
            return Some(out);
        }
        proof {
            let now = out@.map_values(|s: String| s@);
            if !(seg.len() == 0 || seg == "."@) {
                assert forall|r: Seq<Seq<char>>| views + (seq![seg] + r) =~= now + r by {}
            }
        }
        i = k + 1;
    }
}

/// Components joined with `/`.
fn join_parts(parts: &Vec<String>) -> (s: String)
    ensures
        s@ == joined(parts@.map_values(|p: String| p@)),
{
    let ghost all = parts@.map_values(|p: String| p@);
    let mut s = String::new();
    let n = parts.len();
    if n == 0 {
        return s;
    }
    // joined(all) == joined(all.take(i)) + "/" + joined(all.skip(i)) is what
    // the loop builds up; it is kept as: s + tail == joined(all)
    let mut i: usize = 0;
    while i < n
        invariant
            i <= n == parts@.len(),
            n > 0,
            all == parts@.map_values(|p: String| p@),
            i == 0 ==> s@ == Seq::<char>::empty(),
            i > 0 ==> s@ + (if i < n { "/"@ + joined(all.skip(i as int)) } else { Seq::<char>::empty() }) == joined(all),
        decreases n - i,
    {
        if i > 0 {
            push_str(&mut s, "/");
        }
        push_str(&mut s, parts[i].as_str());
        proof {
            lemma_joined_step(all, i as int);
        }
        i += 1;
    }
    s
}

/// Splitting a join after part `i`.
proof fn lemma_joined_step(all: Seq<Seq<char>>, i: int)
    requires
        0 <= i < all.len(),
    ensures
        joined(all.skip(i)) == all[i] + (if i + 1 < all.len() { "/"@ + joined(all.skip(i + 1)) } else { Seq::<char>::empty() }),
{
    let t = all.skip(i);
    assert(t[0] == all[i]);
    if t.len() > 1 {
        assert(t.drop_first() =~= all.skip(i + 1));
        assert(joined(t) == t[0] + "/"@ + joined(t.drop_first()));
    } else {
        assert(joined(t) == t[0]);
        assert(t[0] + Seq::<char>::empty() =~= t[0]);
    }
}

/// Where a figure reference in the document at `directory` points: a path
/// below that folder, or `NotLocal`.
pub fn resolve(directory: &str, asked: &str) -> (r: Result<String, Refusal>)
    ensures
        match r {
            Ok(p) => resolution(directory@, asked@) == Ok::<Seq<char>, Refusal>(p@),
            Err(e) => resolution(directory@, asked@) == Err::<Seq<char>, Refusal>(e),
        },
{
    let decoded = match decode(asked) {
        Some(d) => d,
        None => {
            return Err(Refusal::NotLocal);
        },
    };
    let cs = chars_of(decoded.as_str());
    let (a, b) = trim_bounds(&cs, 0, cs.len());
    assert(cs@.subrange(0, cs@.len() as int) =~= cs@);
    let ghost t = cs@.subrange(a as int, b as int);
    if a == b || scheme_at(&cs, a, b) || cs[a] == '/' || cs[a] == '\\' {
        proof {
            if a < b {
                assert(t[0] == cs@[a as int]);
            }
        }
        return Err(Refusal::NotLocal);
    }
    assert(t[0] == cs@[a as int]);
    let parts = match parts_at(&cs, a, b) {
        Some(v) => v,
        None => {
            return Err(Refusal::NotLocal);
        },
    };
    if parts.len() == 0 {
        return Err(Refusal::NotLocal);
    }
    let rel = join_parts(&parts);
    let dir = chars_of(directory);
    let mut out = String::new();
    push_str(&mut out, directory);
    if dir.len() > 0 && dir[dir.len() - 1] != '/' {
        push_str(&mut out, "/");
    }
    push_str(&mut out, rel.as_str());
    assert(Seq::<char>::empty() + directory@ == directory@);
    Ok(out)
}


/// A component that names something inside the folder it is in: not empty,
/// not `.` or `..`, and without a separator.
pub open spec fn stays_below(seg: Seq<char>) -> bool {
    &&& seg.len() > 0
    &&& seg != "."@
    &&& seg != ".."@
    &&& forall|j: int| 0 <= j < seg.len() ==> !is_sep(#[trigger] seg[j])
}

proof fn lemma_parts_stay_below(p: Seq<char>, i: int)
    requires
        parts_from(p, i) is Some,
    ensures
        forall|j: int| 0 <= j < parts_from(p, i)->0.len() ==> stays_below(#[trigger] parts_from(p, i)->0[j]),
    decreases p.len() + 1 - i,
{
    if 0 <= i <= p.len() {
        lemma_next_sep(p, i);
        let k = next_sep(p, i);
        if k < p.len() {
            lemma_parts_stay_below(p, k + 1);
        }
        let seg = p.subrange(i, k);
        assert forall|j: int| 0 <= j < seg.len() implies !is_sep(#[trigger] seg[j]) by {
            assert(seg[j] == p[i + j]);
        }
    }
}

/// Nothing a document names can climb out of its folder: a resolved figure
/// path is the folder followed by one or more components, none of them
/// empty, `.` or `..`, and none holding a separator.
pub proof fn resolved_paths_stay_inside(dir: Seq<char>, asked: Seq<char>)
    requires
        resolution(dir, asked) is Ok,
    ensures
        exists|parts: Seq<Seq<char>>|
            parts.len() > 0
            && (forall|j: int| 0 <= j < parts.len() ==> stays_below(#[trigger] parts[j]))
            && resolution(dir, asked) == Ok::<Seq<char>, Refusal>(join_dir(dir, joined(parts))),
{
    let d = decode_rounds(asked, 3)->0;
    let t = trim_chars(d);
    let parts = parts_from(t, 0)->0;
    lemma_parts_stay_below(t, 0);
    assert(resolution(dir, asked) == Ok::<Seq<char>, Refusal>(join_dir(dir, joined(parts))));
}


/// The largest figure that is served, in bytes: 20 MB.
pub const MAX_BYTES: u64 = 20971520;

/// Where the next `/` at or after `i` is, or `p.len()`.
pub open spec fn next_slash(p: Seq<char>, i: int) -> int
    decreases p.len() - i,
{
    if i < 0 || i >= p.len() {
        p.len() as int
    } else if p[i] == '/' {
        i
    } else {
        next_slash(p, i + 1)
    }
}

/// The names between the `/`s of `p` from `i` on; runs of `/` and a
/// trailing `/` give none.
pub open spec fn names_from(p: Seq<char>, i: int) -> Seq<Seq<char>>
    decreases p.len() - i,
{
    if i < 0 || i >= p.len() {
        Seq::empty()
    } else if p[i] == '/' {
        names_from(p, i + 1)
    } else {
        let j = next_slash(p, i);
        if j <= i || j > p.len() {
            Seq::empty()
        } else {
            seq![p.subrange(i, j)] + names_from(p, j)
        }
    }
}

/// The components of a resolved path: the root `/` if it has one, then the
/// names between its separators.
pub open spec fn path_components(p: Seq<char>) -> Seq<Seq<char>> {
    (if p.len() > 0 && p[0] == '/' { seq![seq!['/']] } else { Seq::empty() }) + names_from(p, 0)
}

/// Whether `resolved` lies within `root`, component by component: the root's
/// components begin the path's. A name that merely begins with the root's
/// last name (`/books/genesis2` against `/books/genesis`) is not within it.
pub open spec fn within(resolved: Seq<char>, root: Seq<char>) -> bool {
    path_components(root).is_prefix_of(path_components(resolved))
}

proof fn lemma_next_slash_at(p: Seq<char>, i: int, j: int)
    requires
        0 <= i <= j <= p.len(),
        j == p.len() || p[j] == '/',
        forall|k: int| i <= k < j ==> p[k] != '/',
    ensures
        next_slash(p, i) == j,
    decreases j - i,
{
    if i < j {
        lemma_next_slash_at(p, i + 1, j);
    }
}

fn components_of(cs: &Vec<char>) -> (r: Vec<Vec<char>>)
    ensures
        r@.map_values(|v: Vec<char>| v@) == path_components(cs@),
{
    let n = cs.len();
    let mut out: Vec<Vec<char>> = Vec::new();
    if n > 0 && cs[0] == '/' {
        let mut root: Vec<char> = Vec::new();
        root.push('/');
        out.push(root);
        assert(out@.map_values(|v: Vec<char>| v@) =~= seq![seq!['/']]);
    } else {
        assert(out@.map_values(|v: Vec<char>| v@) =~= Seq::<Seq<char>>::empty());
    }
    let ghost head = out@.map_values(|v: Vec<char>| v@);
    assert(path_components(cs@) == head + names_from(cs@, 0));
    let mut i: usize = 0;
    while i < n
        invariant
            n == cs@.len(),
            i <= n,
            out@.map_values(|v: Vec<char>| v@) + names_from(cs@, i as int) == path_components(cs@),
        decreases n - i,
    {
        if cs[i] == '/' {
            i += 1;
        } else {
            let mut seg: Vec<char> = Vec::new();
            let mut j: usize = i;
            while j < n && cs[j] != '/'
                invariant
                    n == cs@.len(),
                    i <= j <= n,
                    seg@ == cs@.subrange(i as int, j as int),
                    forall|k: int| i <= k < j ==> cs@[k] != '/',
                decreases n - j,
            {
                seg.push(cs[j]);
                j += 1;
                assert(seg@ =~= cs@.subrange(i as int, j as int));
            }
            proof {
                lemma_next_slash_at(cs@, i as int, j as int);
            }
            let ghost before = out@.map_values(|v: Vec<char>| v@);
            out.push(seg);
            assert(out@.map_values(|v: Vec<char>| v@) =~= before.push(cs@.subrange(i as int, j as int)));
            assert(before + names_from(cs@, i as int) == before + (seq![cs@.subrange(i as int, j as int)] + names_from(cs@, j as int)));
            assert(before + (seq![cs@.subrange(i as int, j as int)] + names_from(cs@, j as int))
                =~= before.push(cs@.subrange(i as int, j as int)) + names_from(cs@, j as int));
            i = j;
        }
    }
    assert(out@.map_values(|v: Vec<char>| v@) + names_from(cs@, n as int) =~= out@.map_values(|v: Vec<char>| v@));
    out
}

fn same_chars(a: &Vec<char>, b: &Vec<char>) -> (r: bool)
    ensures
        r == (a@ == b@),
{
    if a.len() != b.len() {
        return false;
    }
    let mut k: usize = 0;
    while k < a.len()
        invariant
            a@.len() == b@.len(),
            k <= a@.len(),
            forall|m: int| 0 <= m < k ==> a@[m] == b@[m],
        decreases a.len() - k,
    {
        if a[k] != b[k] {
            return false;
        }
        k += 1;
    }
    assert(a@ =~= b@);
    true
}

/// Whether the resolved path `resolved` lies within the resolved folder `root`,
/// comparing whole components. This is the check made after both have been
/// resolved, so a symbolic link cannot lead out of the folder.
pub fn contains_path(root: &str, resolved: &str) -> (r: bool)
    ensures
        r == within(resolved@, root@),
{
    let rc = components_of(&chars_of(root));
    let pc = components_of(&chars_of(resolved));
    let ghost rv = rc@.map_values(|v: Vec<char>| v@);
    let ghost pv = pc@.map_values(|v: Vec<char>| v@);
    if rc.len() > pc.len() {
        return false;
    }
    let mut k: usize = 0;
    while k < rc.len()
        invariant
            rc@.len() <= pc@.len(),
            k <= rc@.len(),
            rv == rc@.map_values(|v: Vec<char>| v@),
            pv == pc@.map_values(|v: Vec<char>| v@),
            rv == path_components(root@),
            pv == path_components(resolved@),
            forall|m: int| 0 <= m < k ==> rv[m] == pv[m],
        decreases rc.len() - k,
    {
        if !same_chars(&rc[k], &pc[k]) {
            assert(rv[k as int] != pv[k as int]);
            assert(pv.take(rv.len() as int)[k as int] == pv[k as int]);
            return false;
        }
        k += 1;
    }
    assert(rv =~= pv.take(rv.len() as int));
    true
}

/// Whether a figure of `len` bytes may be served: `TooLarge` above
/// `MAX_BYTES`.
pub fn check_size(len: u64) -> (r: Result<(), Refusal>)
    ensures
        len > MAX_BYTES ==> r == Err::<(), Refusal>(Refusal::TooLarge { bytes: len }),
        len <= MAX_BYTES ==> r == Ok::<(), Refusal>(()),
{
    if len > MAX_BYTES {
        Err(Refusal::TooLarge { bytes: len })
    } else {
        Ok(())
    }
}

} // verus!
