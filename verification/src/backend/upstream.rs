//! The parser's output as plain values.
//!
//! `usfm3` parses into a tape: one flat record per token, with each opening
//! marker pointing at its close, plus diagnostics. Both are copied here one
//! for one, so the lowering into this engine's tree works on values of its
//! own. The marker table's category for a marker id is looked up the same way.

use vstd::prelude::*;
use vstd::string::StringSliceAdditionalSpecFns;

verus! {

/// One record of the parser's tape. `kind` is the record's kind in the
/// parser's order: root, marker open, marker close, chapter, verse, text,
/// attributes, block end, error. `link` is the index of an open marker's
/// close, or a chapter's or verse's number.
#[derive(Debug, Clone, Copy, PartialEq, Eq, Structural)]
pub struct Record {
    pub kind: u8,
    pub flags: u8,
    pub marker: u16,
    pub start: u32,
    pub len: u32,
    pub link: u32,
}

/// One of the parser's diagnostics. `code` is the parser's code in its
/// declaration order; `severity` is 0 for an error, 1 for a warning and 2
/// for information.
#[derive(Debug, Clone, PartialEq, Eq)]
pub struct UpstreamDiagnostic {
    pub code: u8,
    pub severity: u8,
    pub start: u32,
    pub len: u32,
    pub message: String,
}

/// A parser diagnostic as contracts speak of it.
pub struct UpstreamDiagnosticView {
    pub code: u8,
    pub severity: u8,
    pub start: u32,
    pub len: u32,
    pub message: Seq<char>,
}

impl View for UpstreamDiagnostic {
    type V = UpstreamDiagnosticView;

    open spec fn view(&self) -> UpstreamDiagnosticView {
        UpstreamDiagnosticView {
            code: self.code,
            severity: self.severity,
            start: self.start,
            len: self.len,
            message: self.message@,
        }
    }
}

/// The views of a run of parser diagnostics.
pub open spec fn upstream_views(ds: Seq<UpstreamDiagnostic>) -> Seq<UpstreamDiagnosticView> {
    ds.map_values(|d: UpstreamDiagnostic| d@)
}

/// What `usfm3` makes of a text: its tape and its diagnostics.
pub uninterp spec fn usfm3_parse(source: Seq<char>) -> (Seq<Record>, Seq<UpstreamDiagnosticView>);

/// The category `usfm3`'s marker table gives a marker id, in the parser's
/// order (identification, chapter, verse, paragraph, character, note,
/// milestone, other), if the id is in the table.
pub uninterp spec fn usfm3_category(marker: u16) -> Option<u8>;

/// Whether `b` is an ASCII decimal digit.
pub open spec fn is_digit_byte(b: u8) -> bool {
    0x30 <= b <= 0x39
}

/// Reading `bytes` from `i` on, with `run` the value of the run of decimal
/// digits that ends just before `i`: every maximal run of digits has a value
/// below `u32::MAX`.
pub open spec fn runs_fit_from(bytes: Seq<u8>, i: int, run: int) -> bool
    decreases bytes.len() - i,
{
    if i >= bytes.len() {
        run < u32::MAX
    } else if is_digit_byte(bytes[i]) {
        runs_fit_from(bytes, i + 1, run * 10 + (bytes[i] - 0x30))
    } else {
        run < u32::MAX && runs_fit_from(bytes, i + 1, 0)
    }
}

/// Every run of decimal digits in the text stands for a number below
/// `u32::MAX`. The parser's checks add one to chapter, verse and table
/// column numbers in `u32`, so on a text with a larger number they overflow.
pub open spec fn numbers_fit(bytes: Seq<u8>) -> bool {
    runs_fit_from(bytes, 0, 0)
}

proof fn lemma_run_too_large(bytes: Seq<u8>, i: int, run: int)
    requires
        run >= u32::MAX,
        0 <= i,
    ensures
        !runs_fit_from(bytes, i, run),
    decreases bytes.len() - i,
{
    if i < bytes.len() && is_digit_byte(bytes[i]) {
        lemma_run_too_large(bytes, i + 1, run * 10 + (bytes[i] - 0x30));
    }
}

/// Whether every run of decimal digits in `source` stands for a number below
/// `u32::MAX`: the texts the parser's checks can be run on.
pub fn numbers_fit_in(source: &str) -> (ok: bool)
    ensures
        ok == numbers_fit(source.spec_bytes()),
{
    let bytes = source.as_bytes();
    let ghost all = source.spec_bytes();
    let n = bytes.len();
    let mut run: u64 = 0;
    let mut i: usize = 0;
    while i < n
        invariant
            bytes@ == all,
            all == source.spec_bytes(),
            n == all.len(),
            i <= n,
            run < u32::MAX,
            numbers_fit(all) == runs_fit_from(all, i as int, run as int),
        decreases n - i,
    {
        let b = bytes[i];
        if 0x30 <= b && b <= 0x39 {
            let next = run * 10 + (b - 0x30) as u64;
            assert(runs_fit_from(all, i as int, run as int) == runs_fit_from(all, i + 1, next as int));
            if next >= 0xffff_ffff {
                proof {
                    lemma_run_too_large(all, i + 1, next as int);
                }
                return false;
            }
            run = next;
        } else {
            run = 0;
        }
        i += 1;
    }
    true
}

/// Calls `usfm3::parse_with` on USFM 3.1 and copies its tape and diagnostics
/// into plain values. What the parser gives is named, not stated: it is a
/// function of the text alone. The tape does not depend on whether
/// diagnostics are asked for (the option only gates recording them); with
/// them off, none come back. With them on, the parser's checks run, and those
/// add one to numbers read from the text in `u32`: `requires` leaves out the
/// texts with a number of `u32::MAX` or more, where that overflows.
#[verifier::external_body]
pub fn parse_upstream(source: &str, diagnostics: bool) -> (r: (Vec<Record>, Vec<UpstreamDiagnostic>))
    requires
        diagnostics ==> numbers_fit(source.spec_bytes()),
    ensures
        r.0@ == usfm3_parse(source@).0,
        upstream_views(r.1@) == (if diagnostics { usfm3_parse(source@).1 } else { Seq::empty() }),
{
    let doc = usfm3::parse_with(source, usfm3::Version::V3_1, usfm3::ParseOptions { diagnostics });
    let records = doc.tape().nodes.iter().map(|n| Record {
        kind: n.kind as u8, flags: n.flags, marker: n.marker.0, start: n.start, len: n.len, link: n.link,
    }).collect();
    let diagnostics = doc.diagnostics().iter().map(|d| UpstreamDiagnostic {
        code: d.code as u8, severity: d.severity as u8, start: d.span.start, len: d.span.len, message: d.message.clone(),
    }).collect();
    (records, diagnostics)
}

/// Calls `MarkerTable::info` on the USFM 3.1 table and gives the entry's
/// category as its position in the parser's order. Named, not stated: it is
/// the table's data.
#[verifier::external_body]
pub fn marker_category(marker: u16) -> (r: Option<u8>)
    ensures
        r == usfm3_category(marker),
{
    usfm3::low_level::MarkerTable::for_version(usfm3::Version::V3_1)
        .info(usfm3::low_level::MarkerId(marker))
        .map(|info| info.category as u8)
}

} // verus!
