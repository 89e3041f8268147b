//! The fidelity envelope: the byte-level properties an editor destroys by
//! default.
//!
//! A file's byte-order mark, its line-ending style, and whether it ends with
//! a newline are invisible on screen and destroyed by a naive load and save.
//! They are captured at load, held outside the editor buffer (which only
//! ever holds `\n`), and put back when the text is written.

use vstd::prelude::*;
use vstd::string::StringSliceAdditionalSpecFns;
use vstd::utf8::{decode_utf8, encode_utf8, valid_utf8};
use crate::fmt::{push_char, push_decimal, push_str};
use crate::text::chars_of;

verus! {

/// A line terminator.
#[derive(Debug, Clone, Copy, PartialEq, Eq, Structural, Hash)]
pub enum Eol {
    /// `\n`: Unix, and what the editor buffer always uses.
    Lf,
    /// `\r\n`: Windows, and most Paratext output.
    Crlf,
    /// `\r`: classic Mac, still found in older translation files.
    Cr,
}

/// The characters a terminator is written as.
pub open spec fn eol_chars(e: Eol) -> Seq<char> {
    match e {
        Eol::Lf => seq!['\n'],
        Eol::Crlf => seq!['\r', '\n'],
        Eol::Cr => seq!['\r'],
    }
}

/// The name the status bar shows for a terminator.
pub open spec fn eol_label(e: Eol) -> Seq<char> {
    match e {
        Eol::Lf => "LF"@,
        Eol::Crlf => "CRLF"@,
        Eol::Cr => "CR"@,
    }
}

impl Eol {
    pub fn as_str(self) -> (r: &'static str)
        ensures
            r@ == eol_chars(self),
    {
        proof {
            reveal_strlit("\n");
            reveal_strlit("\r\n");
            reveal_strlit("\r");
        }
        match self {
            Eol::Lf => "\n",
            Eol::Crlf => "\r\n",
            Eol::Cr => "\r",
        }
    }

    /// The name shown in the status bar.
    pub fn label(self) -> (r: &'static str)
        ensures
            r@ == eol_label(self),
    {
        match self {
            Eol::Lf => "LF",
            Eol::Crlf => "CRLF",
            Eol::Cr => "CR",
        }
    }

    /// The status-bar name, as a string.
    pub fn to_string(&self) -> (r: String)
        ensures
            r@ == eol_label(*self),
    {
        self.label().to_owned()
    }
}

/// How a file terminates its lines.
#[derive(Debug, Clone, PartialEq, Eq)]
pub enum LineEndings {
    Uniform(Eol),
    /// A file that disagrees with itself: one entry per terminator, in
    /// order, so an unmodified line keeps the terminator it had.
    Mixed { per_line: Vec<Eol>, dominant: Eol },
}

/// Line endings as contracts speak of them.
pub enum LineEndingsView {
    Uniform(Eol),
    Mixed { per_line: Seq<Eol>, dominant: Eol },
}

impl View for LineEndings {
    type V = LineEndingsView;

    open spec fn view(&self) -> LineEndingsView {
        match self {
            LineEndings::Uniform(e) => LineEndingsView::Uniform(*e),
            LineEndings::Mixed { per_line, dominant } => LineEndingsView::Mixed {
                per_line: per_line@,
                dominant: *dominant,
            },
        }
    }
}

/// The terminator of a line the file has no record of.
pub open spec fn dominant_of(le: LineEndingsView) -> Eol {
    match le {
        LineEndingsView::Uniform(e) => e,
        LineEndingsView::Mixed { dominant, .. } => dominant,
    }
}

/// The terminator of the line at `k`, counting from zero; past the recorded
/// lines, the dominant one.
pub open spec fn terminator_at(le: LineEndingsView, k: int) -> Eol {
    match le {
        LineEndingsView::Uniform(e) => e,
        LineEndingsView::Mixed { per_line, dominant } => if 0 <= k < per_line.len() {
            per_line[k]
        } else {
            dominant
        },
    }
}

/// How the status bar shows line endings: `CRLF`, or `Mixed (CRLF)`.
pub open spec fn endings_label(le: LineEndingsView) -> Seq<char> {
    match le {
        LineEndingsView::Uniform(e) => eol_label(e),
        LineEndingsView::Mixed { dominant, .. } => "Mixed ("@ + eol_label(dominant) + ")"@,
    }
}

impl LineEndings {
    /// The terminator for a line added since the file was loaded.
    pub fn dominant(&self) -> (e: Eol)
        ensures
            e == dominant_of(self@),
    {
        match self {
            LineEndings::Uniform(eol) => *eol,
            LineEndings::Mixed { dominant, .. } => *dominant,
        }
    }

    pub fn is_mixed(&self) -> (b: bool)
        ensures
            b == (self@ is Mixed),
    {
        match self {
            LineEndings::Mixed { .. } => true,
            LineEndings::Uniform(_) => false,
        }
    }

    /// The terminator for the line at `index`, counting from zero.
    fn at(&self, index: usize) -> (e: Eol)
        ensures
            e == terminator_at(self@, index as int),
    {
        match self {
            LineEndings::Uniform(eol) => *eol,
            LineEndings::Mixed { per_line, dominant } => if index < per_line.len() {
                per_line[index]
            } else {
                *dominant
            },
        }
    }

    /// How the status bar shows these line endings.
    pub fn to_string(&self) -> (r: String)
        ensures
            r@ == endings_label(self@),
    {
        match self {
            LineEndings::Uniform(eol) => eol.label().to_owned(),
            LineEndings::Mixed { dominant, .. } => {
                let mut s = String::new();
                push_str(&mut s, "Mixed (");
                push_str(&mut s, dominant.label());
                push_str(&mut s, ")");
                assert(Seq::<char>::empty() + "Mixed ("@ == "Mixed ("@);
                s
            },
        }
    }
}

/// Why a file could not be loaded.
#[derive(Debug, Clone, PartialEq, Eq, Structural)]
pub enum DecodeError {
    /// The bytes are not valid UTF-8. Refused rather than decoded lossily:
    /// a replacement character cannot be turned back into the byte it hid.
    NotUtf8 { offset: usize },
}

impl DecodeError {
    /// The message the user sees.
    pub fn to_string(&self) -> (r: String)
        ensures
            r@ == match self {
                DecodeError::NotUtf8 { offset } => "not valid UTF-8 at byte "@ + crate::fmt::decimal(*offset as nat)
                    + "; USFM files are UTF-8, and opening this one would mean changing it"@,
            },
    {
        match self {
            DecodeError::NotUtf8 { offset } => {
                let mut s = String::new();
                push_str(&mut s, "not valid UTF-8 at byte ");
                push_decimal(&mut s, *offset as u64);
                push_str(&mut s, "; USFM files are UTF-8, and opening this one would mean changing it");
                assert(Seq::<char>::empty() + "not valid UTF-8 at byte "@ == "not valid UTF-8 at byte "@);
                s
            },
        }
    }
}

/// The digest `blake3::hash` gives for these bytes.
pub uninterp spec fn blake3_digest(bytes: Seq<u8>) -> Seq<u8>;

/// Calls `blake3::hash` and takes its 32 bytes. Its result is named rather
/// than stated: it is the BLAKE3 function itself.
#[verifier::external_body]
pub(crate) fn blake3_hash(bytes: &[u8]) -> (r: [u8; 32])
    ensures
        r@ == blake3_digest(bytes@),
{
    *blake3::hash(bytes).as_bytes()
}

/// Whether `n` is the length of the longest prefix of `b` that is valid
/// UTF-8.
pub open spec fn valid_prefix_len(b: Seq<u8>, n: int) -> bool {
    &&& 0 <= n <= b.len()
    &&& valid_utf8(b.take(n))
    &&& forall|k: int| n < k <= b.len() ==> !valid_utf8(#[trigger] b.take(k))
}

/// Calls `std::str::from_utf8`: the bytes as a `str` when they are valid
/// UTF-8; otherwise the error's `valid_up_to`, which its documentation gives
/// as the longest prefix that would decode.
#[verifier::external_body]
pub(crate) fn str_from_utf8<'a>(bytes: &'a [u8]) -> (r: Result<&'a str, usize>)
    ensures
        match r {
            Ok(s) => valid_utf8(bytes@) && s.spec_bytes() == bytes@,
            Err(n) => !valid_utf8(bytes@) && valid_prefix_len(bytes@, n as int),
        },
{
    match std::str::from_utf8(bytes) {
        Ok(s) => Ok(s),
        Err(error) => Err(error.valid_up_to()),
    }
}

/// Everything about a file's bytes that the text alone does not carry.
#[derive(Debug, Clone, PartialEq, Eq)]
pub struct FileFidelity {
    pub bom: bool,
    pub eol: LineEndings,
    pub final_newline: bool,
    /// BLAKE3 of the exact bytes read.
    pub original_hash: [u8; 32],
    pub len: u64,
}

/// The envelope as contracts speak of it.
pub struct FidelityView {
    pub bom: bool,
    pub eol: LineEndingsView,
    pub final_newline: bool,
    pub original_hash: Seq<u8>,
    pub len: u64,
}

impl View for FileFidelity {
    type V = FidelityView;

    open spec fn view(&self) -> FidelityView {
        FidelityView {
            bom: self.bom,
            eol: self.eol@,
            final_newline: self.final_newline,
            original_hash: self.original_hash@,
            len: self.len,
        }
    }
}

/// A loaded file: its envelope, and the text the editor gets.
#[derive(Debug, Clone, PartialEq, Eq)]
pub struct Loaded {
    pub fidelity: FileFidelity,
    /// Byte-order mark removed and every terminator turned into `\n`.
    pub text: String,
}

/// The UTF-8 byte-order mark.
pub open spec fn bom_bytes() -> Seq<u8> {
    seq![0xEFu8, 0xBBu8, 0xBFu8]
}

pub open spec fn starts_with_bom(b: Seq<u8>) -> bool {
    b.len() >= 3 && b.take(3) == bom_bytes()
}

/// The bytes after any byte-order mark.
pub open spec fn body_of(b: Seq<u8>) -> Seq<u8> {
    if starts_with_bom(b) { b.skip(3) } else { b }
}

/// Text with every terminator (`\r\n`, a lone `\r`, `\n`) turned into `\n`,
/// and the terminators in order.
pub open spec fn normalize_chars(cs: Seq<char>) -> (Seq<char>, Seq<Eol>)
    decreases cs.len(),
{
    if cs.len() == 0 {
        (Seq::empty(), Seq::empty())
    } else if cs[0] == '\r' && cs.len() > 1 && cs[1] == '\n' {
        let rest = normalize_chars(cs.skip(2));
        (seq!['\n'] + rest.0, seq![Eol::Crlf] + rest.1)
    } else if cs[0] == '\r' {
        let rest = normalize_chars(cs.skip(1));
        (seq!['\n'] + rest.0, seq![Eol::Cr] + rest.1)
    } else if cs[0] == '\n' {
        let rest = normalize_chars(cs.skip(1));
        (seq!['\n'] + rest.0, seq![Eol::Lf] + rest.1)
    } else {
        let rest = normalize_chars(cs.skip(1));
        (seq![cs[0]] + rest.0, rest.1)
    }
}

/// How many times a terminator occurs.
pub open spec fn count_eol(es: Seq<Eol>, e: Eol) -> nat
    decreases es.len(),
{
    if es.len() == 0 {
        0
    } else {
        count_eol(es.drop_last(), e) + if es.last() == e { 1nat } else { 0nat }
    }
}

/// A file's line endings from its terminators: LF when it has none; uniform
/// when they all agree; otherwise mixed, with every terminator recorded and
/// the most frequent as dominant, ties going to CRLF, then LF.
pub open spec fn classify_terminators(es: Seq<Eol>) -> LineEndingsView {
    if es.len() == 0 {
        LineEndingsView::Uniform(Eol::Lf)
    } else if forall|i: int| 0 <= i < es.len() ==> #[trigger] es[i] == es[0] {
        LineEndingsView::Uniform(es[0])
    } else {
        let lf = count_eol(es, Eol::Lf);
        let crlf = count_eol(es, Eol::Crlf);
        let cr = count_eol(es, Eol::Cr);
        let dominant = if crlf >= lf && crlf >= cr {
            Eol::Crlf
        } else if lf >= cr {
            Eol::Lf
        } else {
            Eol::Cr
        };
        LineEndingsView::Mixed { per_line: es, dominant }
    }
}

/// The editor's text for a file whose body is valid UTF-8.
pub open spec fn captured_text(b: Seq<u8>) -> Seq<char> {
    normalize_chars(decode_utf8(body_of(b))).0
}

/// The envelope read off a file whose body is valid UTF-8.
pub open spec fn captured_fidelity(b: Seq<u8>) -> FidelityView {
    let text = captured_text(b);
    FidelityView {
        bom: starts_with_bom(b),
        eol: classify_terminators(normalize_chars(decode_utf8(body_of(b))).1),
        final_newline: text.len() > 0 && text.last() == '\n',
        original_hash: blake3_digest(b),
        len: b.len() as u64,
    }
}

/// The text with the `k`th newline onwards written with the terminators
/// the line endings give lines `k` onwards.
pub open spec fn expand(cs: Seq<char>, le: LineEndingsView, k: int) -> Seq<char>
    decreases cs.len(),
{
    if cs.len() == 0 {
        Seq::empty()
    } else if cs[0] == '\n' {
        eol_chars(terminator_at(le, k)) + expand(cs.drop_first(), le, k + 1)
    } else {
        seq![cs[0]] + expand(cs.drop_first(), le, k)
    }
}

/// The bytes an envelope writes for a text: the byte-order mark if the file
/// had one, then the text with its `k`th newline written as the terminator
/// of line `k`.
pub open spec fn serialized(f: FidelityView, text: Seq<char>) -> Seq<u8> {
    (if f.bom { bom_bytes() } else { Seq::empty() }) + encode_utf8(expand(text, f.eol, 0))
}

/// Whether an envelope was captured from these bytes.
pub open spec fn fidelity_matches(f: FidelityView, b: Seq<u8>) -> bool {
    b.len() == f.len && blake3_digest(b) == f.original_hash
}

/// Replaces every terminator with `\n`, recording what each one was.
fn normalize(raw: &str) -> (r: (String, Vec<Eol>))
    ensures
        (r.0@, r.1@) == normalize_chars(raw@),
{
    let cs = chars_of(raw);
    let n = cs.len();
    let mut text = String::new();
    let mut terminators: Vec<Eol> = Vec::new();
    let mut i: usize = 0;
    assert(cs@.skip(0) == cs@);
    while i < n
        invariant
            i <= n == cs@.len(),
            cs@ == raw@,
            normalize_chars(cs@).0 == text@ + normalize_chars(cs@.skip(i as int)).0,
            normalize_chars(cs@).1 == terminators@ + normalize_chars(cs@.skip(i as int)).1,
        decreases n - i,
    {
        let ghost rest = cs@.skip(i as int);
        assert(rest[0] == cs@[i as int]);
        let c = cs[i];
        if c == '\r' {
            if i + 1 < n && cs[i + 1] == '\n' {
                assert(rest[1] == cs@[i + 1]);
                assert(rest.skip(2) == cs@.skip(i + 2));
                terminators.push(Eol::Crlf);
                i += 2;
            } else {
                assert(rest.skip(1) == cs@.skip(i + 1));
                terminators.push(Eol::Cr);
                i += 1;
            }
            push_char(&mut text, '\n');
        } else if c == '\n' {
            assert(rest.skip(1) == cs@.skip(i + 1));
            terminators.push(Eol::Lf);
            push_char(&mut text, '\n');
            i += 1;
        } else {
            assert(rest.skip(1) == cs@.skip(i + 1));
            push_char(&mut text, c);
            i += 1;
        }
        assert(normalize_chars(cs@).0 == text@ + normalize_chars(cs@.skip(i as int)).0);
        assert(normalize_chars(cs@).1 == terminators@ + normalize_chars(cs@.skip(i as int)).1);
    }
    proof {
        assert(cs@.skip(n as int) == Seq::<char>::empty());
        assert(text@ + Seq::<char>::empty() == text@);
        assert(terminators@ + Seq::<Eol>::empty() == terminators@);
    }
    (text, terminators)
}

/// Classifies a file's terminators.
fn classify(terminators: &[Eol]) -> (r: LineEndings)
    ensures
        r@ == classify_terminators(terminators@),
{
    let n = terminators.len();
    if n == 0 {
        return LineEndings::Uniform(Eol::Lf);
    }
    let first = terminators[0];
    let mut i: usize = 0;
    let mut uniform = true;
    while i < n
        invariant
            i <= n == terminators@.len(),
            first == terminators@[0],
            uniform == forall|j: int| 0 <= j < i ==> #[trigger] terminators@[j] == first,
        decreases n - i,
    {
        if terminators[i] != first {
            uniform = false;
        }
        i += 1;
    }
    if uniform {
        return LineEndings::Uniform(first);
    }
    let mut lf: usize = 0;
    let mut crlf: usize = 0;
    let mut cr: usize = 0;
    let mut per_line: Vec<Eol> = Vec::new();
    let mut k: usize = 0;
    assert(terminators@.take(0) == Seq::<Eol>::empty());
    while k < n
        invariant
            k <= n == terminators@.len(),
            per_line@ == terminators@.take(k as int),
            lf == count_eol(terminators@.take(k as int), Eol::Lf),
            crlf == count_eol(terminators@.take(k as int), Eol::Crlf),
            cr == count_eol(terminators@.take(k as int), Eol::Cr),
            lf + crlf + cr == k,
        decreases n - k,
    {
        let e = terminators[k];
        proof {
            let t = terminators@.take(k + 1);
            assert(t.drop_last() == terminators@.take(k as int));
            assert(t.last() == e);
        }
        match e {
            Eol::Lf => lf += 1,
            Eol::Crlf => crlf += 1,
            Eol::Cr => cr += 1,
        }
        per_line.push(e);
        assert(per_line@ == terminators@.take(k + 1));
        k += 1;
    }
    assert(terminators@.take(n as int) == terminators@);
    let dominant = if crlf >= lf && crlf >= cr {
        Eol::Crlf
    } else if lf >= cr {
        Eol::Lf
    } else {
        Eol::Cr
    };
    LineEndings::Mixed { per_line, dominant }
}

/// Whether text ends with a newline.
fn ends_with_newline(text: &String) -> (b: bool)
    ensures
        b == (text@.len() > 0 && text@.last() == '\n'),
{
    let cs = chars_of(text.as_str());
    cs.len() > 0 && cs[cs.len() - 1] == '\n'
}

impl FileFidelity {
    /// Reads the envelope off a file's bytes, and returns the text with it
    /// removed. Bytes whose body is not UTF-8 are refused, with the offset
    /// of the first byte that does not decode.
    pub fn capture(bytes: &[u8]) -> (r: Result<Loaded, DecodeError>)
        ensures
            match r {
                Ok(l) => valid_utf8(body_of(bytes@)) && l.fidelity@ == captured_fidelity(bytes@)
                    && l.text@ == captured_text(bytes@),
                Err(DecodeError::NotUtf8 { offset }) => !valid_utf8(body_of(bytes@))
                    && valid_prefix_len(body_of(bytes@), offset - if starts_with_bom(bytes@) { 3int } else { 0int }),
            },
    {
        let original_hash = blake3_hash(bytes);
        let len = bytes.len() as u64;
        let bom = bytes.len() >= 3 && bytes[0] == 0xEF && bytes[1] == 0xBB && bytes[2] == 0xBF;
        proof {
            if bytes@.len() >= 3 {
                assert(bytes@.take(3) =~= seq![bytes@[0], bytes@[1], bytes@[2]]);
            }
        }
        let body = if bom {
            vstd::slice::slice_subrange(bytes, 3, bytes.len())
        } else {
            bytes
        };
        assert(body@ == body_of(bytes@));
        let raw = match str_from_utf8(body) {
            Ok(raw) => raw,
            Err(n) => {
                let offset = if bom { n + 3 } else { n };
                return Err(DecodeError::NotUtf8 { offset });
            },
        };
        proof {
            vstd::utf8::encode_utf8_decode_utf8(raw@);
        }
        assert(raw@ == decode_utf8(body_of(bytes@)));
        let (text, terminators) = normalize(raw);
        let final_newline = ends_with_newline(&text);
        let eol = classify(terminators.as_slice());
        Ok(Loaded { fidelity: FileFidelity { bom, eol, final_newline, original_hash, len }, text })
    }

    /// Puts the envelope back on: the byte-order mark if the file had one,
    /// then each line with the terminator it had; a line added since takes
    /// the dominant one. Whether the text ends with a newline is taken from
    /// the text, since removing one is an edit like any other.
    pub fn serialize(&self, text: &str) -> (r: Vec<u8>)
        ensures
            r@ == serialized(self@, text@),
    {
        let cs = chars_of(text);
        let n = cs.len();
        let mut s = String::new();
        let mut k: usize = 0;
        let mut i: usize = 0;
        assert(cs@.skip(0) == cs@);
        while i < n
            invariant
                i <= n == cs@.len(),
                k <= i,
                cs@ == text@,
                expand(cs@, self.eol@, 0) == s@ + expand(cs@.skip(i as int), self.eol@, k as int),
            decreases n - i,
        {
            let ghost rest = cs@.skip(i as int);
            assert(rest[0] == cs@[i as int]);
            assert(rest.drop_first() == cs@.skip(i + 1));
            let c = cs[i];
            if c == '\n' {
                let e = self.eol.at(k);
                push_str(&mut s, e.as_str());
                k += 1;
            } else {
                push_char(&mut s, c);
            }
            i += 1;
        }
        assert(cs@.skip(n as int) == Seq::<char>::empty());
        assert(s@ + Seq::<char>::empty() == s@);
        let mut out: Vec<u8> = Vec::new();
        if self.bom {
            out.push(0xEF);
            out.push(0xBB);
            out.push(0xBF);
        }
        let ghost head = out@;
        assert(head == if self.bom { bom_bytes() } else { Seq::<u8>::empty() });
        let body = s.as_str().as_bytes();
        let mut j: usize = 0;
        while j < body.len()
            invariant
                j <= body@.len(),
                out@ == head + body@.take(j as int),
            decreases body.len() - j,
        {
            out.push(body[j]);
            assert(body@.take(j + 1) == body@.take(j as int).push(body@[j as int]));
            j += 1;
        }
        assert(body@.take(body@.len() as int) == body@);
        out
    }

    /// Whether `bytes` are the ones this envelope was captured from: the
    /// same length and the same BLAKE3 digest.
    pub fn matches(&self, bytes: &[u8]) -> (b: bool)
        ensures
            b == fidelity_matches(self@, bytes@),
    {
        if bytes.len() as u64 != self.len {
            return false;
        }
        let h = blake3_hash(bytes);
        let mut i: usize = 0;
        while i < 32
            invariant
                i <= 32,
                h@.len() == 32,
                h@ == blake3_digest(bytes@),
                self.original_hash@.len() == 32,
                forall|j: int| 0 <= j < i ==> h@[j] == self.original_hash@[j],
            decreases 32 - i,
        {
            if h[i] != self.original_hash[i] {
                assert(h@[i as int] != self.original_hash@[i as int]);
                return false;
            }
            i += 1;
        }
        assert(h@ =~= self.original_hash@);
        true
    }
}

proof fn lemma_expand_normalize(cs: Seq<char>, le: LineEndingsView, k: int)
    requires
        forall|j: int| 0 <= j < normalize_chars(cs).1.len()
            ==> #[trigger] terminator_at(le, k + j) == normalize_chars(cs).1[j],
    ensures
        expand(normalize_chars(cs).0, le, k) == cs,
    decreases cs.len(),
{
    let n = normalize_chars(cs);
    if cs.len() == 0 {
    } else {
        let step: int = if cs[0] == '\r' && cs.len() > 1 && cs[1] == '\n' { 2 } else { 1 };
        let rest = normalize_chars(cs.skip(step));
        let is_break = cs[0] == '\r' || cs[0] == '\n';
        let next_k = if is_break { k + 1 } else { k };
        assert forall|j: int| 0 <= j < rest.1.len() implies #[trigger] terminator_at(le, next_k + j) == rest.1[j] by {
            if is_break {
                assert(n.1[j + 1] == rest.1[j]);
                assert(terminator_at(le, k + (j + 1)) == n.1[j + 1]);
            } else {
                assert(n.1[j] == rest.1[j]);
                assert(terminator_at(le, k + j) == n.1[j]);
            }
        }
        lemma_expand_normalize(cs.skip(step), le, next_k);
        assert(n.0[0] == if is_break { '\n' } else { cs[0] });
        assert(n.0.drop_first() == rest.0);
        if is_break {
            assert(terminator_at(le, k + 0) == n.1[0]);
            assert(eol_chars(n.1[0]) + cs.skip(step) =~= cs);
        } else {
            assert(seq![cs[0]] + cs.skip(1) =~= cs);
        }
    }
}

proof fn lemma_classify_at(es: Seq<Eol>)
    ensures
        forall|j: int| 0 <= j < es.len() ==> #[trigger] terminator_at(classify_terminators(es), j) == es[j],
{
}

/// Loading a file and writing its unedited text back gives exactly the
/// bytes that were loaded: byte-order mark, every line's own terminator,
/// and the presence or absence of a final newline.
pub proof fn round_trip(b: Seq<u8>)
    requires
        valid_utf8(body_of(b)),
    ensures
        serialized(captured_fidelity(b), captured_text(b)) == b,
{
    let body = body_of(b);
    let cs = decode_utf8(body);
    let es = normalize_chars(cs).1;
    lemma_classify_at(es);
    let le = classify_terminators(es);
    assert forall|j: int| 0 <= j < es.len() implies #[trigger] terminator_at(le, 0 + j) == es[j] by {
        assert(terminator_at(le, j) == es[j]);
    }
    lemma_expand_normalize(cs, le, 0);
    vstd::utf8::decode_utf8_encode_utf8(body);
    if starts_with_bom(b) {
        assert(bom_bytes() + b.skip(3) =~= b);
    } else {
        assert(Seq::<u8>::empty() + b =~= b);
    }
}

/// The editor's text never holds a carriage return: every terminator it
/// sees is `\n`.
pub proof fn captured_text_has_only_line_feeds(b: Seq<u8>)
    ensures
        forall|i: int| 0 <= i < captured_text(b).len() ==> #[trigger] captured_text(b)[i] != '\r',
{
    lemma_normalize_no_cr(decode_utf8(body_of(b)));
}

proof fn lemma_normalize_no_cr(cs: Seq<char>)
    ensures
        forall|i: int| 0 <= i < normalize_chars(cs).0.len() ==> #[trigger] normalize_chars(cs).0[i] != '\r',
    decreases cs.len(),
{
    if cs.len() > 0 {
        let step: int = if cs[0] == '\r' && cs.len() > 1 && cs[1] == '\n' { 2 } else { 1 };
        lemma_normalize_no_cr(cs.skip(step));
        let t = normalize_chars(cs).0;
        let r = normalize_chars(cs.skip(step)).0;
        assert forall|i: int| 0 <= i < t.len() implies #[trigger] t[i] != '\r' by {
            if i > 0 {
                assert(t[i] == r[i - 1]);
            }
        }
    }
}

/// An envelope matches the bytes it was captured from.
pub proof fn captured_envelope_matches(b: Seq<u8>)
    requires
        b.len() <= usize::MAX,
    ensures
        fidelity_matches(captured_fidelity(b), b),
{
}


/// The line endings to save a text with, from the terminators the editor
/// recorded, one per newline: none recorded is a new document, saved with
/// `\n`; all alike are uniform; otherwise they are mixed, and the first is
/// the one a line added since takes.
pub open spec fn endings_from(eols: Seq<Eol>) -> LineEndingsView {
    if eols.len() == 0 {
        LineEndingsView::Uniform(Eol::Lf)
    } else if forall|i: int| 0 <= i < eols.len() ==> #[trigger] eols[i] == eols[0] {
        LineEndingsView::Uniform(eols[0])
    } else {
        LineEndingsView::Mixed { per_line: eols, dominant: eols[0] }
    }
}

/// The envelope of a text being saved: what the file's bytes will be, with
/// nothing read to describe.
pub open spec fn saving_envelope(text: Seq<char>, bom: bool, eols: Seq<Eol>) -> FidelityView {
    FidelityView {
        bom,
        eol: endings_from(eols),
        final_newline: text.len() > 0 && text.last() == '\n',
        original_hash: Seq::new(32, |i: int| 0u8),
        len: 0,
    }
}

/// Line endings from the terminators the editor recorded.
pub fn endings_of(eols: Vec<Eol>) -> (r: LineEndings)
    ensures
        r@ == endings_from(eols@),
{
    if eols.len() == 0 {
        return LineEndings::Uniform(Eol::Lf);
    }
    let first = eols[0];
    let mut i: usize = 0;
    while i < eols.len()
        invariant
            i <= eols@.len(),
            eols@.len() > 0,
            first == eols@[0],
            forall|j: int| 0 <= j < i ==> #[trigger] eols@[j] == first,
        decreases eols.len() - i,
    {
        if eols[i] != first {
            return LineEndings::Mixed { per_line: eols, dominant: first };
        }
        i += 1;
    }
    LineEndings::Uniform(first)
}

/// Puts the envelope back on a text being saved: the byte-order mark if
/// asked for, and each line's recorded terminator.
pub fn encode_file(text: &str, bom: bool, eols: Vec<Eol>) -> (r: Vec<u8>)
    ensures
        r@ == serialized(saving_envelope(text@, bom, eols@), text@),
{
    let endings = endings_of(eols);
    let cs = chars_of(text);
    let final_newline = cs.len() > 0 && cs[cs.len() - 1] == '\n';
    let fidelity = FileFidelity { bom, eol: endings, final_newline, original_hash: [0u8; 32], len: 0 };
    assert(fidelity@.original_hash =~= Seq::new(32, |i: int| 0u8));
    fidelity.serialize(text)
}

/// A file whose lines end differently is mixed, every terminator kept in
/// order, and its dominant terminator is one it uses most: at least as often
/// as each other one. On a tie CRLF wins, then LF. A file whose lines all end
/// alike is uniform in that ending; one with no line break at all counts as
/// LF.
pub proof fn the_dominant_ending_is_the_most_frequent(es: Seq<Eol>)
    ensures
        es.len() == 0 ==> classify_terminators(es) == LineEndingsView::Uniform(Eol::Lf),
        es.len() > 0 && (forall|i: int| 0 <= i < es.len() ==> #[trigger] es[i] == es[0])
            ==> classify_terminators(es) == LineEndingsView::Uniform(es[0]),
        (exists|i: int| 0 <= i < es.len() && #[trigger] es[i] != es[0]) ==> {
            &&& classify_terminators(es) is Mixed
            &&& classify_terminators(es)->per_line == es
            &&& forall|e: Eol| count_eol(es, classify_terminators(es)->dominant) >= #[trigger] count_eol(es, e)
            &&& count_eol(es, Eol::Crlf) >= count_eol(es, Eol::Lf) && count_eol(es, Eol::Crlf) >= count_eol(es, Eol::Cr)
                ==> classify_terminators(es)->dominant == Eol::Crlf
            &&& classify_terminators(es)->dominant == Eol::Cr
                ==> count_eol(es, Eol::Cr) > count_eol(es, Eol::Lf) && count_eol(es, Eol::Cr) > count_eol(es, Eol::Crlf)
        },
{
    if exists|i: int| 0 <= i < es.len() && #[trigger] es[i] != es[0] {
        let r = classify_terminators(es);
        assert forall|e: Eol| count_eol(es, r->dominant) >= #[trigger] count_eol(es, e) by {
            match e {
                Eol::Lf => {},
                Eol::Crlf => {},
                Eol::Cr => {},
            }
        }
    }
}

/// How often a terminator occurs is the number of lines that end with it.
pub proof fn a_count_is_the_lines_with_that_ending(es: Seq<Eol>, e: Eol)
    ensures
        count_eol(es, e) == es.filter(|x: Eol| x == e).len(),
    decreases es.len(),
{
    reveal(Seq::filter);
    if es.len() > 0 {
        a_count_is_the_lines_with_that_ending(es.drop_last(), e);
    }
}

} // verus!
