//! The parser's false sidebar errors, and how they are told from real ones.
//!
//! A study sidebar opens with `\esb` and closes with the separate marker
//! `\esbe`. The parser does not model that closer, so a correctly closed
//! sidebar draws two contradictory errors: `UnclosedAtEof` over the whole
//! block, and `StrayCloseMarker` on the closer. The spans tell them apart: a
//! closed block's span ends with its closer, and the false stray-close sits
//! at that same end.

use vstd::prelude::*;
use vstd::string::StringSliceAdditionalSpecFns;
use vstd::utf8::decode_utf8;
use crate::diagnostic::{Diagnostic, DiagnosticCode, DiagnosticView, Severity};
use crate::backend::upstream::{UpstreamDiagnostic, UpstreamDiagnosticView, upstream_views};
use crate::session::clamp_usize;
use crate::span::ByteSpan;
use crate::text::{at_boundary, chars_of, str_get};

verus! {

/// The text of `source` between two byte offsets, when they are in order,
/// in bounds and on character boundaries.
pub open spec fn slice_text(source: Seq<u8>, start: usize, end: usize) -> Option<Seq<char>> {
    if start <= end <= source.len() && at_boundary(source, start as int) && at_boundary(source, end as int) {
        Some(decode_utf8(source.subrange(start as int, end as int)))
    } else {
        None
    }
}

/// `\esb`.
pub open spec fn opener_chars() -> Seq<char> {
    seq!['\\', 'e', 's', 'b']
}

/// `\esbe`.
pub open spec fn closer_chars() -> Seq<char> {
    seq!['\\', 'e', 's', 'b', 'e']
}

pub open spec fn ascii_alphanumeric(c: char) -> bool {
    ('0' <= c && c <= '9') || ('a' <= c && c <= 'z') || ('A' <= c && c <= 'Z')
}

/// Text that runs from an `\esb` (not the start of a longer marker name) to
/// an `\esbe`, and is longer than the closer alone.
pub open spec fn closed_sidebar(t: Seq<char>) -> bool {
    &&& t.len() > 5
    &&& t.take(4) == opener_chars()
    &&& t.skip(t.len() - 5) == closer_chars()
    &&& !(ascii_alphanumeric(t[4]) || t[4] == '-')
}

/// An `UnclosedAtEof` whose span is a closed sidebar.
pub open spec fn closes_sidebar(d: Diagnostic, source: Seq<u8>) -> bool {
    d.code == DiagnosticCode::UnclosedAtEof && match slice_text(source, d.span.start, d.span.end) {
        Some(t) => closed_sidebar(t),
        None => false,
    }
}

/// Whether some closed sidebar among `ds` ends at `e`.
pub open spec fn closed_end(ds: Seq<Diagnostic>, source: Seq<u8>, e: usize) -> bool {
    exists|i: int| 0 <= i < ds.len() && closes_sidebar(ds[i], source) && #[trigger] ds[i].span.end == e
}

/// The parser's false report on a closed sidebar: the `UnclosedAtEof` over
/// it, or the `StrayCloseMarker` on exactly its closing `\esbe`.
pub open spec fn falsely_reported(ds: Seq<Diagnostic>, source: Seq<u8>, d: Diagnostic) -> bool {
    match d.code {
        DiagnosticCode::UnclosedAtEof => closes_sidebar(d, source),
        DiagnosticCode::StrayCloseMarker => closed_end(ds, source, d.span.end)
            && slice_text(source, d.span.start, d.span.end) == Some(closer_chars()),
        _ => false,
    }
}

/// The first `n` diagnostics, in order, without the false reports.
pub open spec fn kept(ds: Seq<Diagnostic>, source: Seq<u8>, n: int) -> Seq<Diagnostic>
    decreases n,
{
    if n <= 0 {
        Seq::empty()
    } else if falsely_reported(ds, source, ds[n - 1]) {
        kept(ds, source, n - 1)
    } else {
        kept(ds, source, n - 1).push(ds[n - 1])
    }
}

/// Whether a span of text runs from an `\esb` to a matching `\esbe`.
pub fn is_closed_sidebar(text: &str) -> (b: bool)
    ensures
        b == closed_sidebar(text@),
{
    let t = chars_of(text);
    let n = t.len();
    if n <= 5 {
        return false;
    }
    let opens = t[0] == '\\' && t[1] == 'e' && t[2] == 's' && t[3] == 'b';
    let closes = t[n - 5] == '\\' && t[n - 4] == 'e' && t[n - 3] == 's' && t[n - 2] == 'b' && t[n - 1] == 'e';
    let next = t[4];
    let bounded = !((('0' <= next && next <= '9') || ('a' <= next && next <= 'z') || ('A' <= next && next <= 'Z'))
        || next == '-');
    proof {
        assert(opens <==> t@.take(4) =~= opener_chars());
        assert(closes <==> t@.skip(n - 5) =~= closer_chars());
    }
    opens && closes && bounded
}

/// The text a span covers, or `None`.
fn span_text<'a>(source: &'a str, start: usize, end: usize) -> (r: Option<&'a str>)
    ensures
        match r {
            Some(t) => slice_text(source.spec_bytes(), start, end) == Some(t@),
            None => slice_text(source.spec_bytes(), start, end) is None,
        },
{
    let r = str_get(source, start, end);
    proof {
        if let Some(t) = r {
            vstd::utf8::encode_utf8_decode_utf8(t@);
        }
    }
    r
}

/// Whether a diagnostic is the `UnclosedAtEof` of a closed sidebar.
fn closes(d: &Diagnostic, source: &str) -> (b: bool)
    ensures
        b == closes_sidebar(*d, source.spec_bytes()),
{
    match d.code {
        DiagnosticCode::UnclosedAtEof => match span_text(source, d.span.start, d.span.end) {
            Some(t) => is_closed_sidebar(t),
            None => false,
        },
        _ => false,
    }
}

/// Whether a span's text is exactly `\esbe`.
fn is_closer(source: &str, start: usize, end: usize) -> (b: bool)
    ensures
        b == (slice_text(source.spec_bytes(), start, end) == Some(closer_chars())),
{
    match span_text(source, start, end) {
        Some(t) => {
            let cs = chars_of(t);
            let r = cs.len() == 5 && cs[0] == '\\' && cs[1] == 'e' && cs[2] == 's' && cs[3] == 'b' && cs[4] == 'e';
            proof {
                if cs@.len() == 5 {
                    assert(r <==> cs@ =~= closer_chars());
                }
            }
            r
        },
        None => false,
    }
}

/// Whether `e` is among `v`.
fn contains(v: &Vec<usize>, e: usize) -> (b: bool)
    ensures
        b == v@.contains(e),
{
    let mut i: usize = 0;
    while i < v.len()
        invariant
            i <= v@.len(),
            forall|j: int| 0 <= j < i ==> v@[j] != e,
        decreases v.len() - i,
    {
        if v[i] == e {
            return true;
        }
        i += 1;
    }
    false
}

proof fn lemma_nothing_closed(ds: Seq<Diagnostic>, source: Seq<u8>, n: int)
    requires
        0 <= n <= ds.len(),
        forall|i: int| 0 <= i < ds.len() ==> !closes_sidebar(#[trigger] ds[i], source),
    ensures
        kept(ds, source, n) == ds.take(n),
    decreases n,
{
    if n > 0 {
        lemma_nothing_closed(ds, source, n - 1);
        assert(!closes_sidebar(ds[n - 1], source));
        assert(!closed_end(ds, source, ds[n - 1].span.end));
        assert(ds.take(n) == ds.take(n - 1).push(ds[n - 1]));
    }
}

/// Drops the pair of errors the parser raises on a correctly closed
/// sidebar; every other diagnostic survives, in order.
pub fn without_false_sidebar_pairs(diagnostics: Vec<Diagnostic>, source: &str) -> (r: Vec<Diagnostic>)
    ensures
        r@ == kept(diagnostics@, source.spec_bytes(), diagnostics@.len() as int),
{
    let ghost ds = diagnostics@;
    let ghost src = source.spec_bytes();
    let n = diagnostics.len();
    let mut ends: Vec<usize> = Vec::new();
    let mut i: usize = 0;
    while i < n
        invariant
            i <= n == ds.len(),
            diagnostics@ == ds,
            src == source.spec_bytes(),
            forall|e: usize| ends@.contains(e) <==> exists|j: int| 0 <= j < i && closes_sidebar(ds[j], src) && #[trigger] ds[j].span.end == e,
        decreases n - i,
    {
        if closes(&diagnostics[i], source) {
            let ghost before = ends@;
            ends.push(diagnostics[i].span.end);
            assert(closes_sidebar(ds[i as int], src));
            assert forall|e: usize| ends@.contains(e) <==> exists|j: int| 0 <= j < i + 1 && closes_sidebar(ds[j], src) && #[trigger] ds[j].span.end == e by {
                if ends@.contains(e) {
                    let k = choose|k: int| 0 <= k < ends@.len() && ends@[k] == e;
                    if k < before.len() {
                        assert(before[k] == e);
                        assert(before.contains(e));
                    } else {
                        assert(ds[i as int].span.end == e);
                    }
                }
                if exists|j: int| 0 <= j < i + 1 && closes_sidebar(ds[j], src) && #[trigger] ds[j].span.end == e {
                    let j = choose|j: int| 0 <= j < i + 1 && closes_sidebar(ds[j], src) && #[trigger] ds[j].span.end == e;
                    if j < i {
                        assert(before.contains(e));
                        let k = choose|k: int| 0 <= k < before.len() && before[k] == e;
                        assert(ends@[k] == e);
                    } else {
                        assert(ends@[before.len() as int] == e);
                    }
                }
            }
        }
        i += 1;
    }
    if ends.len() == 0 {
        proof {
            assert forall|k: int| 0 <= k < ds.len() implies !closes_sidebar(#[trigger] ds[k], src) by {
                if closes_sidebar(ds[k], src) {
                    assert(ends@.contains(ds[k].span.end));
                }
            }
            lemma_nothing_closed(ds, src, ds.len() as int);
            assert(ds.take(ds.len() as int) == ds);
        }
        return diagnostics;
    }
    // Reverse onto a stack, so that popping hands them back in order.
    let mut rest = diagnostics;
    let mut stack: Vec<Diagnostic> = Vec::new();
    while rest.len() > 0
        invariant
            rest@.len() + stack@.len() == n == ds.len(),
            rest@ == ds.take(rest@.len() as int),
            forall|j: int| 0 <= j < stack@.len() ==> #[trigger] stack@[j] == ds[n - 1 - j],
        decreases rest.len(),
    {
        let d = rest.pop().unwrap();
        stack.push(d);
        assert(ds.take(rest@.len() as int) == ds.take(rest@.len() + 1int).drop_last());
    }
    let mut out: Vec<Diagnostic> = Vec::new();
    while stack.len() > 0
        invariant
            stack@.len() <= n == ds.len(),
            src == source.spec_bytes(),
            forall|j: int| 0 <= j < stack@.len() ==> #[trigger] stack@[j] == ds[n - 1 - j],
            out@ == kept(ds, src, n - stack@.len()),
            forall|e: usize| ends@.contains(e) <==> closed_end(ds, src, e),
        decreases stack.len(),
    {
        let ghost p: int = n - stack@.len();
        let d = stack.pop().unwrap();
        assert(d == ds[p]);
        let drop = match d.code {
            DiagnosticCode::UnclosedAtEof => closes(&d, source),
            DiagnosticCode::StrayCloseMarker => contains(&ends, d.span.end) && is_closer(source, d.span.start, d.span.end),
            _ => false,
        };
        assert(drop == falsely_reported(ds, src, ds[p]));
        if !drop {
            out.push(d);
        }
    }
    out
}


/// This engine's code for the parser's code (its position in the parser's
/// declaration order): the same condition under the same name. A stray
/// backslash is an unknown marker here; the two codes about misplaced
/// numbers have no code here.
pub open spec fn upstream_code(code: u8) -> Option<DiagnosticCode> {
    match code {
        0u8 => Some(DiagnosticCode::UnknownMarker),
        1u8 => Some(DiagnosticCode::UnclosedMarker),
        2u8 => Some(DiagnosticCode::StrayCloseMarker),
        3u8 => Some(DiagnosticCode::UnknownMarker),
        4u8 => Some(DiagnosticCode::MissingIdMarker),
        5u8 => Some(DiagnosticCode::InvalidBookCode),
        6u8 => Some(DiagnosticCode::DuplicateId),
        7u8 => Some(DiagnosticCode::TextBeforeId),
        8u8 => Some(DiagnosticCode::MissingChapterMarker),
        9u8 => Some(DiagnosticCode::InvalidChapterSequence),
        10u8 => Some(DiagnosticCode::DuplicateChapter),
        11u8 => Some(DiagnosticCode::InvalidVerseSequence),
        12u8 => Some(DiagnosticCode::VerseOutsideParagraph),
        13u8 => Some(DiagnosticCode::NoteSubmarkerOutsideNote),
        14u8 => Some(DiagnosticCode::NonEmptyBlankLine),
        15u8 => Some(DiagnosticCode::LeadingZeros),
        16u8 => Some(DiagnosticCode::MilestoneMismatch),
        17u8 => Some(DiagnosticCode::InvalidAttributes),
        18u8 => Some(DiagnosticCode::MissingChapterNumber),
        19u8 => Some(DiagnosticCode::MissingVerseNumber),
        20u8 => Some(DiagnosticCode::CharCrossesVerseBoundary),
        21u8 => Some(DiagnosticCode::EmptyFigure),
        22u8 => Some(DiagnosticCode::UnquotedAttributeValue),
        23u8 => Some(DiagnosticCode::MissingRequiredAttribute),
        24u8 => Some(DiagnosticCode::BodyParagraphBeforeChapter),
        25u8 => Some(DiagnosticCode::EmptyWordMarker),
        26u8 => Some(DiagnosticCode::MissingMilestoneSelfClose),
        27u8 => Some(DiagnosticCode::InvalidTableColumnSequence),
        28u8 => Some(DiagnosticCode::DeprecatedMarker),
        29u8 => Some(DiagnosticCode::ImplicitClose),
        30u8 => Some(DiagnosticCode::UnclosedNote),
        31u8 => Some(DiagnosticCode::UnclosedAtEof),
        32u8 => Some(DiagnosticCode::DefaultAttributeNotDefined),
        33u8 => None,
        34u8 => None,
        35u8 => Some(DiagnosticCode::MisnestedMarker),
        36u8 => Some(DiagnosticCode::MissingNestingPrefix),
        37u8 => Some(DiagnosticCode::HeaderAfterBody),
        _ => None,
    }
}

/// Converts the parser's code.
pub fn convert_code(code: u8) -> (c: Option<DiagnosticCode>)
    ensures
        c == upstream_code(code),
{
    match code {
        0u8 => Some(DiagnosticCode::UnknownMarker),
        1u8 => Some(DiagnosticCode::UnclosedMarker),
        2u8 => Some(DiagnosticCode::StrayCloseMarker),
        3u8 => Some(DiagnosticCode::UnknownMarker),
        4u8 => Some(DiagnosticCode::MissingIdMarker),
        5u8 => Some(DiagnosticCode::InvalidBookCode),
        6u8 => Some(DiagnosticCode::DuplicateId),
        7u8 => Some(DiagnosticCode::TextBeforeId),
        8u8 => Some(DiagnosticCode::MissingChapterMarker),
        9u8 => Some(DiagnosticCode::InvalidChapterSequence),
        10u8 => Some(DiagnosticCode::DuplicateChapter),
        11u8 => Some(DiagnosticCode::InvalidVerseSequence),
        12u8 => Some(DiagnosticCode::VerseOutsideParagraph),
        13u8 => Some(DiagnosticCode::NoteSubmarkerOutsideNote),
        14u8 => Some(DiagnosticCode::NonEmptyBlankLine),
        15u8 => Some(DiagnosticCode::LeadingZeros),
        16u8 => Some(DiagnosticCode::MilestoneMismatch),
        17u8 => Some(DiagnosticCode::InvalidAttributes),
        18u8 => Some(DiagnosticCode::MissingChapterNumber),
        19u8 => Some(DiagnosticCode::MissingVerseNumber),
        20u8 => Some(DiagnosticCode::CharCrossesVerseBoundary),
        21u8 => Some(DiagnosticCode::EmptyFigure),
        22u8 => Some(DiagnosticCode::UnquotedAttributeValue),
        23u8 => Some(DiagnosticCode::MissingRequiredAttribute),
        24u8 => Some(DiagnosticCode::BodyParagraphBeforeChapter),
        25u8 => Some(DiagnosticCode::EmptyWordMarker),
        26u8 => Some(DiagnosticCode::MissingMilestoneSelfClose),
        27u8 => Some(DiagnosticCode::InvalidTableColumnSequence),
        28u8 => Some(DiagnosticCode::DeprecatedMarker),
        29u8 => Some(DiagnosticCode::ImplicitClose),
        30u8 => Some(DiagnosticCode::UnclosedNote),
        31u8 => Some(DiagnosticCode::UnclosedAtEof),
        32u8 => Some(DiagnosticCode::DefaultAttributeNotDefined),
        33u8 => None,
        34u8 => None,
        35u8 => Some(DiagnosticCode::MisnestedMarker),
        36u8 => Some(DiagnosticCode::MissingNestingPrefix),
        37u8 => Some(DiagnosticCode::HeaderAfterBody),
        _ => None,
    }
}

/// This engine's severity for the parser's: 0 an error, 1 a warning,
/// anything else information.
pub open spec fn upstream_severity(severity: u8) -> Severity {
    if severity == 0 {
        Severity::Error
    } else if severity == 1 {
        Severity::Warning
    } else {
        Severity::Information
    }
}

/// Converts the parser's severity.
pub fn convert_severity(severity: u8) -> (s: Severity)
    ensures
        s == upstream_severity(severity),
{
    if severity == 0 {
        Severity::Error
    } else if severity == 1 {
        Severity::Warning
    } else {
        Severity::Information
    }
}

/// The parser's diagnostics in this engine's terms, in order: each with a
/// code here, with its severity, span and message; the others left out.
pub open spec fn converted(ds: Seq<UpstreamDiagnosticView>) -> Seq<DiagnosticView>
    decreases ds.len(),
{
    if ds.len() == 0 {
        Seq::empty()
    } else {
        let rest = converted(ds.drop_last());
        let d = ds.last();
        match upstream_code(d.code) {
            Some(code) => rest.push(DiagnosticView {
                code,
                severity: upstream_severity(d.severity),
                span: ByteSpan { start: d.start as usize, end: clamp_usize(d.start + d.len) },
                message: d.message,
            }),
            None => rest,
        }
    }
}

/// Converts the parser's diagnostics.
pub fn convert(diagnostics: &Vec<UpstreamDiagnostic>) -> (r: Vec<Diagnostic>)
    ensures
        r@.map_values(|d: Diagnostic| d@) == converted(upstream_views(diagnostics@)),
{
    let ghost ds = upstream_views(diagnostics@);
    let mut out: Vec<Diagnostic> = Vec::new();
    let mut i: usize = 0;
    assert(ds.take(0) =~= Seq::<UpstreamDiagnosticView>::empty());
    while i < diagnostics.len()
        invariant
            i <= diagnostics@.len(),
            ds == upstream_views(diagnostics@),
            out@.map_values(|d: Diagnostic| d@) == converted(ds.take(i as int)),
        decreases diagnostics.len() - i,
    {
        let d = &diagnostics[i];
        proof {
            let t = ds.take(i + 1);
            assert(t.drop_last() =~= ds.take(i as int));
            assert(t.last() == d@);
        }
        match convert_code(d.code) {
            Some(code) => {
                let end = (d.start as usize).saturating_add(d.len as usize);
                let c = Diagnostic {
                    code,
                    severity: convert_severity(d.severity),
                    span: ByteSpan::new(d.start as usize, end),
                    message: d.message.clone(),
                };
                let ghost before = out@;
                out.push(c);
                assert(out@.map_values(|d: Diagnostic| d@) =~= before.map_values(|d: Diagnostic| d@).push(c@));
            },
            None => {},
        }
        i += 1;
    }
    assert(ds.take(diagnostics@.len() as int) =~= ds);
    out
}

} // verus!
