//! Zero-width joiners, and where they must not be.
//!
//! U+200D and U+200C control conjunct formation in several scripts. They are
//! invisible and trivially inserted by accident; one that drifts into a
//! marker name produces an unknown-marker error whose cause cannot be seen.
//! The question is about characters, so it is asked of the source.

use vstd::prelude::*;
use vstd::string::StringSliceAdditionalSpecFns;
use crate::diagnostic::{Diagnostic, DiagnosticCode, DiagnosticView, Severity};
use crate::fmt::push_str;
use crate::span::ByteSpan;
use crate::text::{byte_offset, chars_of, len_utf8, lemma_byte_offset_step, str_len};
use crate::verse::diag_views;

verus! {

/// Zero-width non-joiner or zero-width joiner.
pub open spec fn joiner(c: char) -> bool {
    c == '\u{200c}' || c == '\u{200d}'
}

/// What a message calls a joiner: its code point, which someone can search
/// for, and its name.
pub open spec fn joiner_name(c: char) -> Seq<char> {
    if c == '\u{200d}' {
        "U+200D zero-width joiner"@
    } else {
        "U+200C zero-width non-joiner"@
    }
}

/// A character that can appear in a marker name.
pub open spec fn marker_name_char(c: char) -> bool {
    ('0' <= c && c <= '9') || ('a' <= c && c <= 'z') || ('A' <= c && c <= 'Z') || c == '-' || c == '+' || c == '*'
}

/// Where the run of marker-name characters ending just before index `k`
/// begins.
pub open spec fn name_start(cs: Seq<char>, k: int) -> int
    decreases k,
{
    if k <= 0 || k > cs.len() {
        k
    } else if marker_name_char(cs[k - 1]) {
        name_start(cs, k - 1)
    } else {
        k
    }
}

/// Whether the run of marker-name characters ending just before index `k` is
/// opened by a backslash: the position is then part of a marker.
pub open spec fn opens_marker_at(cs: Seq<char>, k: int) -> bool {
    let j = name_start(cs, k);
    j > 0 && cs[j - 1] == '\\'
}

/// What the joiner at index `k` deserves. Inside a marker name, with a name
/// character on its far side, it is a warning; against a marker boundary,
/// just past a name or just before a backslash, it is information; in
/// ordinary text it is nothing.
pub open spec fn joiner_diag(cs: Seq<char>, k: int) -> Seq<DiagnosticView> {
    let c = cs[k];
    let span = ByteSpan {
        start: byte_offset(cs, k) as usize,
        end: byte_offset(cs, k + 1) as usize,
    };
    let in_marker = opens_marker_at(cs, k);
    let has_after = k + 1 < cs.len();
    if !joiner(c) {
        Seq::empty()
    } else if in_marker && has_after && marker_name_char(cs[k + 1]) {
        seq![DiagnosticView {
            code: DiagnosticCode::JoinerInMarkerName,
            severity: Severity::Warning,
            span,
            message: joiner_name(c) + " is inside a marker name, which makes it a marker USFM does not define"@,
        }]
    } else if in_marker || (has_after && cs[k + 1] == '\\') {
        seq![DiagnosticView {
            code: DiagnosticCode::JoinerAtMarkerBoundary,
            severity: Severity::Information,
            span,
            message: joiner_name(c) + " sits against a marker boundary; check it is where you meant"@,
        }]
    } else {
        Seq::empty()
    }
}

/// The joiner diagnostics of the first `n` characters, in order.
pub open spec fn joiner_diags(cs: Seq<char>, n: int) -> Seq<DiagnosticView>
    decreases n,
{
    if n <= 0 {
        Seq::empty()
    } else {
        joiner_diags(cs, n - 1) + joiner_diag(cs, n - 1)
    }
}

/// Whether a character is a zero-width joiner or non-joiner.
pub fn is_joiner(character: char) -> (b: bool)
    ensures
        b == joiner(character),
{
    character == '\u{200c}' || character == '\u{200d}'
}

/// Whether a character can appear in a marker name.
fn in_marker_name(character: char) -> (b: bool)
    ensures
        b == marker_name_char(character),
{
    ('0' <= character && character <= '9') || ('a' <= character && character <= 'z')
        || ('A' <= character && character <= 'Z') || character == '-' || character == '+' || character == '*'
}

/// The name of a joiner, for a message that can be acted on.
fn name(character: char) -> (r: &'static str)
    ensures
        r@ == joiner_name(character),
{
    if character == '\u{200d}' {
        "U+200D zero-width joiner"
    } else {
        "U+200C zero-width non-joiner"
    }
}

/// Whether the run of name characters ending just before index `k` is
/// opened by a backslash.
fn opens_marker(cs: &Vec<char>, k: usize) -> (b: bool)
    requires
        k <= cs@.len(),
    ensures
        b == opens_marker_at(cs@, k as int),
{
    let mut back = k;
    while back > 0 && in_marker_name(cs[back - 1])
        invariant
            back <= k <= cs@.len(),
            name_start(cs@, k as int) == name_start(cs@, back as int),
        decreases back,
    {
        back -= 1;
    }
    back > 0 && cs[back - 1] == '\\'
}

/// Every joiner that is somewhere it should not be, in source order. Joiners
/// in ordinary text are not reported: that is what they are for.
pub fn diagnostics(source: &str) -> (r: Vec<Diagnostic>)
    ensures
        diag_views(r@) == joiner_diags(source@, source@.len() as int),
{
    let cs = chars_of(source);
    let total = str_len(source);
    let mut found: Vec<Diagnostic> = Vec::new();
    let mut offset: usize = 0;
    let mut k: usize = 0;
    assert(cs@.take(0) == Seq::<char>::empty());
    assert(diag_views(found@) =~= Seq::<DiagnosticView>::empty());
    while k < cs.len()
        invariant
            k <= cs@.len(),
            cs@ == source@,
            total == source.spec_bytes().len(),
            source.spec_bytes() == vstd::utf8::encode_utf8(source@),
            offset == byte_offset(cs@, k as int),
            diag_views(found@) == joiner_diags(cs@, k as int),
        decreases cs.len() - k,
    {
        let character = cs[k];
        let width = len_utf8(character);
        proof {
            lemma_byte_offset_step(cs@, k as int);
        }
        let next = offset + width;
        if is_joiner(character) {
            let in_marker = opens_marker(&cs, k);
            let has_after = k + 1 < cs.len();
            let inside_name = in_marker && has_after && in_marker_name(cs[k + 1]);
            let against = in_marker || (has_after && cs[k + 1] == '\\');
            if inside_name || against {
                let mut message = String::new();
                push_str(&mut message, name(character));
                if inside_name {
                    push_str(&mut message, " is inside a marker name, which makes it a marker USFM does not define");
                } else {
                    push_str(&mut message, " sits against a marker boundary; check it is where you meant");
                }
                assert(Seq::<char>::empty() + joiner_name(character) == joiner_name(character));
                let d = Diagnostic {
                    code: if inside_name { DiagnosticCode::JoinerInMarkerName } else { DiagnosticCode::JoinerAtMarkerBoundary },
                    severity: if inside_name { Severity::Warning } else { Severity::Information },
                    span: ByteSpan::new(offset, next),
                    message,
                };
                let ghost before = found@;
                found.push(d);
                assert(joiner_diag(cs@, k as int) == seq![d@]);
                assert(diag_views(found@) =~= diag_views(before) + seq![d@]);
            } else {
                assert(joiner_diag(cs@, k as int) == Seq::<DiagnosticView>::empty());
                assert(joiner_diags(cs@, k + 1) =~= joiner_diags(cs@, k as int));
            }
        } else {
            assert(joiner_diags(cs@, k + 1) =~= joiner_diags(cs@, k as int));
        }
        offset = next;
        k += 1;
    }
    found
}

} // verus!
