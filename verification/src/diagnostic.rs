//! Diagnostics, and the stable codes that identify them.
//!
//! Every diagnostic carries a stable code, so it can be suppressed
//! individually and its wording can change without breaking tooling. The
//! letter in a code records the condition's canonical severity; the severity
//! actually reported is computed and may differ.

use vstd::prelude::*;
use crate::span::ByteSpan;

verus! {

/// How much a diagnostic matters.
#[derive(Debug, Clone, Copy, PartialEq, Eq, Structural, PartialOrd, Ord, Hash)]
pub enum Severity {
    Information,
    Warning,
    Error,
}

/// The word for a severity, as the interface shows it.
pub open spec fn severity_name(s: Severity) -> Seq<char> {
    match s {
        Severity::Information => "information"@,
        Severity::Warning => "warning"@,
        Severity::Error => "error"@,
    }
}

impl Severity {
    pub fn as_str(self) -> (r: &'static str)
        ensures
            r@ == severity_name(self),
    {
        match self {
            Severity::Information => "information",
            Severity::Warning => "warning",
            Severity::Error => "error",
        }
    }

    /// The severity's position in the order Information < Warning < Error.
    pub open spec fn rank(self) -> int {
        match self {
            Severity::Information => 0,
            Severity::Warning => 1,
            Severity::Error => 2,
        }
    }
}

/// A condition the engine can report.
///
/// The numbering is a single sequence shared across severities, which is why
/// `USFM-E018` and `USFM-I021` can both exist.
#[derive(Debug, Clone, Copy, PartialEq, Eq, Structural, PartialOrd, Ord, Hash)]
pub enum DiagnosticCode {
    // ---- markers and nesting ----
    UnknownMarker,
    DeprecatedMarker,
    UnclosedMarker,
    StrayCloseMarker,
    MisnestedMarker,
    MissingNestingPrefix,
    ImplicitClose,
    UnclosedNote,
    UnclosedAtEof,

    // ---- structure ----
    InvalidChapterSequence,
    InvalidVerseSequence,
    DuplicateChapter,
    DuplicateId,
    MissingIdMarker,
    InvalidBookCode,
    NoteSubmarkerOutsideNote,
    TextBeforeId,

    /// `USFM-E018` — non-ASCII digits in a `\v` number. UNICODE §6: verse
    /// numbers stay ASCII because that is the USFM data model; `\vp` and `\cp`
    /// are where published numbering lives.
    NonAsciiVerseDigits,

    HeaderAfterBody,
    MilestoneMismatch,

    /// `USFM-I021` — the document mixes normalization forms. UNICODE §4:
    /// reported, never corrected automatically.
    MixedNormalization,

    /// `USFM-W022` — a zero-width joiner inside a marker name. Almost
    /// certainly accidental, and otherwise produces an unknown-marker error
    /// whose cause is invisible on screen.
    JoinerInMarkerName,

    /// `USFM-I023` — a zero-width joiner adjacent to a marker boundary.
    JoinerAtMarkerBoundary,

    // ---- attributes and content ----
    InvalidAttributes,
    MissingChapterNumber,
    MissingVerseNumber,
    VerseOutsideParagraph,
    MissingChapterMarker,
    CharCrossesVerseBoundary,
    EmptyFigure,
    UnquotedAttributeValue,
    MissingRequiredAttribute,
    DefaultAttributeNotDefined,
    BodyParagraphBeforeChapter,
    NonEmptyBlankLine,
    LeadingZeros,
    EmptyWordMarker,
    MissingMilestoneSelfClose,
    InvalidTableColumnSequence,

    /// `USFM-I040` — the marker was introduced after the version the document
    /// declares. Usually a stale `\usfm` line rather than a mistake.
    MarkerNewerThanDocument,

    /// `USFM-W041` — the USFM 2.x positional `\fig` syntax, where fields are
    /// separated by `|` with no names. Carries a quick fix.
    LegacyFigureSyntax,

    /// `USFM-E042` — two verses in a chapter cover the same number. Includes
    /// the case where a range overlaps a verse stated separately.
    DuplicateVerse,

    /// `USFM-I043` — a chapter skips a verse number. Information, because
    /// intentional omissions are ordinary in published Scripture.
    VerseGap,
}


/// The stable code string for a condition.
pub open spec fn code_name(code: DiagnosticCode) -> Seq<char> {
    match code {
        DiagnosticCode::UnknownMarker => "USFM-W001"@,
        DiagnosticCode::DeprecatedMarker => "USFM-W002"@,
        DiagnosticCode::UnclosedMarker => "USFM-E003"@,
        DiagnosticCode::StrayCloseMarker => "USFM-E004"@,
        DiagnosticCode::MisnestedMarker => "USFM-E005"@,
        DiagnosticCode::MissingNestingPrefix => "USFM-E006"@,
        DiagnosticCode::ImplicitClose => "USFM-E007"@,
        DiagnosticCode::UnclosedNote => "USFM-E008"@,
        DiagnosticCode::UnclosedAtEof => "USFM-E009"@,
        DiagnosticCode::InvalidChapterSequence => "USFM-E010"@,
        DiagnosticCode::InvalidVerseSequence => "USFM-E011"@,
        DiagnosticCode::DuplicateChapter => "USFM-E012"@,
        DiagnosticCode::DuplicateId => "USFM-E013"@,
        DiagnosticCode::MissingIdMarker => "USFM-E014"@,
        DiagnosticCode::InvalidBookCode => "USFM-E015"@,
        DiagnosticCode::NoteSubmarkerOutsideNote => "USFM-E016"@,
        DiagnosticCode::TextBeforeId => "USFM-E017"@,
        DiagnosticCode::NonAsciiVerseDigits => "USFM-E018"@,
        DiagnosticCode::HeaderAfterBody => "USFM-W019"@,
        DiagnosticCode::MilestoneMismatch => "USFM-E020"@,
        DiagnosticCode::MixedNormalization => "USFM-I021"@,
        DiagnosticCode::JoinerInMarkerName => "USFM-W022"@,
        DiagnosticCode::JoinerAtMarkerBoundary => "USFM-I023"@,
        DiagnosticCode::InvalidAttributes => "USFM-E024"@,
        DiagnosticCode::MissingChapterNumber => "USFM-E025"@,
        DiagnosticCode::MissingVerseNumber => "USFM-E026"@,
        DiagnosticCode::VerseOutsideParagraph => "USFM-W027"@,
        DiagnosticCode::MissingChapterMarker => "USFM-E028"@,
        DiagnosticCode::CharCrossesVerseBoundary => "USFM-W029"@,
        DiagnosticCode::EmptyFigure => "USFM-W030"@,
        DiagnosticCode::UnquotedAttributeValue => "USFM-W031"@,
        DiagnosticCode::MissingRequiredAttribute => "USFM-E032"@,
        DiagnosticCode::DefaultAttributeNotDefined => "USFM-E033"@,
        DiagnosticCode::BodyParagraphBeforeChapter => "USFM-W034"@,
        DiagnosticCode::NonEmptyBlankLine => "USFM-W035"@,
        DiagnosticCode::LeadingZeros => "USFM-W036"@,
        DiagnosticCode::EmptyWordMarker => "USFM-W037"@,
        DiagnosticCode::MissingMilestoneSelfClose => "USFM-E038"@,
        DiagnosticCode::InvalidTableColumnSequence => "USFM-E039"@,
        DiagnosticCode::MarkerNewerThanDocument => "USFM-I040"@,
        DiagnosticCode::LegacyFigureSyntax => "USFM-W041"@,
        DiagnosticCode::DuplicateVerse => "USFM-E042"@,
        DiagnosticCode::VerseGap => "USFM-I043"@,
    }
}

impl DiagnosticCode {
    /// The stable code string, as it appears in the interface and in
    /// suppression settings.
    pub fn as_str(self) -> (r: &'static str)
        ensures
            r@ == code_name(self),
    {
        match self {
            DiagnosticCode::UnknownMarker => "USFM-W001",
            DiagnosticCode::DeprecatedMarker => "USFM-W002",
            DiagnosticCode::UnclosedMarker => "USFM-E003",
            DiagnosticCode::StrayCloseMarker => "USFM-E004",
            DiagnosticCode::MisnestedMarker => "USFM-E005",
            DiagnosticCode::MissingNestingPrefix => "USFM-E006",
            DiagnosticCode::ImplicitClose => "USFM-E007",
            DiagnosticCode::UnclosedNote => "USFM-E008",
            DiagnosticCode::UnclosedAtEof => "USFM-E009",
            DiagnosticCode::InvalidChapterSequence => "USFM-E010",
            DiagnosticCode::InvalidVerseSequence => "USFM-E011",
            DiagnosticCode::DuplicateChapter => "USFM-E012",
            DiagnosticCode::DuplicateId => "USFM-E013",
            DiagnosticCode::MissingIdMarker => "USFM-E014",
            DiagnosticCode::InvalidBookCode => "USFM-E015",
            DiagnosticCode::NoteSubmarkerOutsideNote => "USFM-E016",
            DiagnosticCode::TextBeforeId => "USFM-E017",
            DiagnosticCode::NonAsciiVerseDigits => "USFM-E018",
            DiagnosticCode::HeaderAfterBody => "USFM-W019",
            DiagnosticCode::MilestoneMismatch => "USFM-E020",
            DiagnosticCode::MixedNormalization => "USFM-I021",
            DiagnosticCode::JoinerInMarkerName => "USFM-W022",
            DiagnosticCode::JoinerAtMarkerBoundary => "USFM-I023",
            DiagnosticCode::InvalidAttributes => "USFM-E024",
            DiagnosticCode::MissingChapterNumber => "USFM-E025",
            DiagnosticCode::MissingVerseNumber => "USFM-E026",
            DiagnosticCode::VerseOutsideParagraph => "USFM-W027",
            DiagnosticCode::MissingChapterMarker => "USFM-E028",
            DiagnosticCode::CharCrossesVerseBoundary => "USFM-W029",
            DiagnosticCode::EmptyFigure => "USFM-W030",
            DiagnosticCode::UnquotedAttributeValue => "USFM-W031",
            DiagnosticCode::MissingRequiredAttribute => "USFM-E032",
            DiagnosticCode::DefaultAttributeNotDefined => "USFM-E033",
            DiagnosticCode::BodyParagraphBeforeChapter => "USFM-W034",
            DiagnosticCode::NonEmptyBlankLine => "USFM-W035",
            DiagnosticCode::LeadingZeros => "USFM-W036",
            DiagnosticCode::EmptyWordMarker => "USFM-W037",
            DiagnosticCode::MissingMilestoneSelfClose => "USFM-E038",
            DiagnosticCode::InvalidTableColumnSequence => "USFM-E039",
            DiagnosticCode::MarkerNewerThanDocument => "USFM-I040",
            DiagnosticCode::LegacyFigureSyntax => "USFM-W041",
            DiagnosticCode::DuplicateVerse => "USFM-E042",
            DiagnosticCode::VerseGap => "USFM-I043",
        }
    }

    /// Every code, in declaration order: for tests and for the settings
    /// interface that lists what can be suppressed.
    pub fn all() -> (r: Vec<DiagnosticCode>)
        ensures
            r@.len() == 43,
            forall|c: DiagnosticCode| r@.contains(c),
    {
        let mut v: Vec<DiagnosticCode> = Vec::new();
        v.push(DiagnosticCode::UnknownMarker);
        v.push(DiagnosticCode::DeprecatedMarker);
        v.push(DiagnosticCode::UnclosedMarker);
        v.push(DiagnosticCode::StrayCloseMarker);
        v.push(DiagnosticCode::MisnestedMarker);
        v.push(DiagnosticCode::MissingNestingPrefix);
        v.push(DiagnosticCode::ImplicitClose);
        v.push(DiagnosticCode::UnclosedNote);
        v.push(DiagnosticCode::UnclosedAtEof);
        v.push(DiagnosticCode::InvalidChapterSequence);
        v.push(DiagnosticCode::InvalidVerseSequence);
        v.push(DiagnosticCode::DuplicateChapter);
        v.push(DiagnosticCode::DuplicateId);
        v.push(DiagnosticCode::MissingIdMarker);
        v.push(DiagnosticCode::InvalidBookCode);
        v.push(DiagnosticCode::NoteSubmarkerOutsideNote);
        v.push(DiagnosticCode::TextBeforeId);
        v.push(DiagnosticCode::NonAsciiVerseDigits);
        v.push(DiagnosticCode::HeaderAfterBody);
        v.push(DiagnosticCode::MilestoneMismatch);
        v.push(DiagnosticCode::MixedNormalization);
        v.push(DiagnosticCode::JoinerInMarkerName);
        v.push(DiagnosticCode::JoinerAtMarkerBoundary);
        v.push(DiagnosticCode::InvalidAttributes);
        v.push(DiagnosticCode::MissingChapterNumber);
        v.push(DiagnosticCode::MissingVerseNumber);
        v.push(DiagnosticCode::VerseOutsideParagraph);
        v.push(DiagnosticCode::MissingChapterMarker);
        v.push(DiagnosticCode::CharCrossesVerseBoundary);
        v.push(DiagnosticCode::EmptyFigure);
        v.push(DiagnosticCode::UnquotedAttributeValue);
        v.push(DiagnosticCode::MissingRequiredAttribute);
        v.push(DiagnosticCode::DefaultAttributeNotDefined);
        v.push(DiagnosticCode::BodyParagraphBeforeChapter);
        v.push(DiagnosticCode::NonEmptyBlankLine);
        v.push(DiagnosticCode::LeadingZeros);
        v.push(DiagnosticCode::EmptyWordMarker);
        v.push(DiagnosticCode::MissingMilestoneSelfClose);
        v.push(DiagnosticCode::InvalidTableColumnSequence);
        v.push(DiagnosticCode::MarkerNewerThanDocument);
        v.push(DiagnosticCode::LegacyFigureSyntax);
        v.push(DiagnosticCode::DuplicateVerse);
        v.push(DiagnosticCode::VerseGap);
        proof {
            assert forall|c: DiagnosticCode| v@.contains(c) by {
                match c {
                    DiagnosticCode::UnknownMarker => { assert(v@[0] == c); }
                    DiagnosticCode::DeprecatedMarker => { assert(v@[1] == c); }
                    DiagnosticCode::UnclosedMarker => { assert(v@[2] == c); }
                    DiagnosticCode::StrayCloseMarker => { assert(v@[3] == c); }
                    DiagnosticCode::MisnestedMarker => { assert(v@[4] == c); }
                    DiagnosticCode::MissingNestingPrefix => { assert(v@[5] == c); }
                    DiagnosticCode::ImplicitClose => { assert(v@[6] == c); }
                    DiagnosticCode::UnclosedNote => { assert(v@[7] == c); }
                    DiagnosticCode::UnclosedAtEof => { assert(v@[8] == c); }
                    DiagnosticCode::InvalidChapterSequence => { assert(v@[9] == c); }
                    DiagnosticCode::InvalidVerseSequence => { assert(v@[10] == c); }
                    DiagnosticCode::DuplicateChapter => { assert(v@[11] == c); }
                    DiagnosticCode::DuplicateId => { assert(v@[12] == c); }
                    DiagnosticCode::MissingIdMarker => { assert(v@[13] == c); }
                    DiagnosticCode::InvalidBookCode => { assert(v@[14] == c); }
                    DiagnosticCode::NoteSubmarkerOutsideNote => { assert(v@[15] == c); }
                    DiagnosticCode::TextBeforeId => { assert(v@[16] == c); }
                    DiagnosticCode::NonAsciiVerseDigits => { assert(v@[17] == c); }
                    DiagnosticCode::HeaderAfterBody => { assert(v@[18] == c); }
                    DiagnosticCode::MilestoneMismatch => { assert(v@[19] == c); }
                    DiagnosticCode::MixedNormalization => { assert(v@[20] == c); }
                    DiagnosticCode::JoinerInMarkerName => { assert(v@[21] == c); }
                    DiagnosticCode::JoinerAtMarkerBoundary => { assert(v@[22] == c); }
                    DiagnosticCode::InvalidAttributes => { assert(v@[23] == c); }
                    DiagnosticCode::MissingChapterNumber => { assert(v@[24] == c); }
                    DiagnosticCode::MissingVerseNumber => { assert(v@[25] == c); }
                    DiagnosticCode::VerseOutsideParagraph => { assert(v@[26] == c); }
                    DiagnosticCode::MissingChapterMarker => { assert(v@[27] == c); }
                    DiagnosticCode::CharCrossesVerseBoundary => { assert(v@[28] == c); }
                    DiagnosticCode::EmptyFigure => { assert(v@[29] == c); }
                    DiagnosticCode::UnquotedAttributeValue => { assert(v@[30] == c); }
                    DiagnosticCode::MissingRequiredAttribute => { assert(v@[31] == c); }
                    DiagnosticCode::DefaultAttributeNotDefined => { assert(v@[32] == c); }
                    DiagnosticCode::BodyParagraphBeforeChapter => { assert(v@[33] == c); }
                    DiagnosticCode::NonEmptyBlankLine => { assert(v@[34] == c); }
                    DiagnosticCode::LeadingZeros => { assert(v@[35] == c); }
                    DiagnosticCode::EmptyWordMarker => { assert(v@[36] == c); }
                    DiagnosticCode::MissingMilestoneSelfClose => { assert(v@[37] == c); }
                    DiagnosticCode::InvalidTableColumnSequence => { assert(v@[38] == c); }
                    DiagnosticCode::MarkerNewerThanDocument => { assert(v@[39] == c); }
                    DiagnosticCode::LegacyFigureSyntax => { assert(v@[40] == c); }
                    DiagnosticCode::DuplicateVerse => { assert(v@[41] == c); }
                    DiagnosticCode::VerseGap => { assert(v@[42] == c); }
                }
            }
        }
        v
    }
}

/// Something the engine wants to tell the user about a place in the document.
#[derive(Debug, Clone, PartialEq)]
pub struct Diagnostic {
    pub code: DiagnosticCode,
    pub severity: Severity,
    pub span: ByteSpan,
    pub message: String,
}

/// A diagnostic as contracts speak of it: its message as characters.
pub struct DiagnosticView {
    pub code: DiagnosticCode,
    pub severity: Severity,
    pub span: ByteSpan,
    pub message: Seq<char>,
}

impl View for Diagnostic {
    type V = DiagnosticView;

    open spec fn view(&self) -> DiagnosticView {
        DiagnosticView {
            code: self.code,
            severity: self.severity,
            span: self.span,
            message: self.message@,
        }
    }
}


/// The number in a code's string.
pub open spec fn code_number(code: DiagnosticCode) -> nat {
    match code {
        DiagnosticCode::UnknownMarker => 1,
        DiagnosticCode::DeprecatedMarker => 2,
        DiagnosticCode::UnclosedMarker => 3,
        DiagnosticCode::StrayCloseMarker => 4,
        DiagnosticCode::MisnestedMarker => 5,
        DiagnosticCode::MissingNestingPrefix => 6,
        DiagnosticCode::ImplicitClose => 7,
        DiagnosticCode::UnclosedNote => 8,
        DiagnosticCode::UnclosedAtEof => 9,
        DiagnosticCode::InvalidChapterSequence => 10,
        DiagnosticCode::InvalidVerseSequence => 11,
        DiagnosticCode::DuplicateChapter => 12,
        DiagnosticCode::DuplicateId => 13,
        DiagnosticCode::MissingIdMarker => 14,
        DiagnosticCode::InvalidBookCode => 15,
        DiagnosticCode::NoteSubmarkerOutsideNote => 16,
        DiagnosticCode::TextBeforeId => 17,
        DiagnosticCode::NonAsciiVerseDigits => 18,
        DiagnosticCode::HeaderAfterBody => 19,
        DiagnosticCode::MilestoneMismatch => 20,
        DiagnosticCode::MixedNormalization => 21,
        DiagnosticCode::JoinerInMarkerName => 22,
        DiagnosticCode::JoinerAtMarkerBoundary => 23,
        DiagnosticCode::InvalidAttributes => 24,
        DiagnosticCode::MissingChapterNumber => 25,
        DiagnosticCode::MissingVerseNumber => 26,
        DiagnosticCode::VerseOutsideParagraph => 27,
        DiagnosticCode::MissingChapterMarker => 28,
        DiagnosticCode::CharCrossesVerseBoundary => 29,
        DiagnosticCode::EmptyFigure => 30,
        DiagnosticCode::UnquotedAttributeValue => 31,
        DiagnosticCode::MissingRequiredAttribute => 32,
        DiagnosticCode::DefaultAttributeNotDefined => 33,
        DiagnosticCode::BodyParagraphBeforeChapter => 34,
        DiagnosticCode::NonEmptyBlankLine => 35,
        DiagnosticCode::LeadingZeros => 36,
        DiagnosticCode::EmptyWordMarker => 37,
        DiagnosticCode::MissingMilestoneSelfClose => 38,
        DiagnosticCode::InvalidTableColumnSequence => 39,
        DiagnosticCode::MarkerNewerThanDocument => 40,
        DiagnosticCode::LegacyFigureSyntax => 41,
        DiagnosticCode::DuplicateVerse => 42,
        DiagnosticCode::VerseGap => 43,
    }
}

/// The class letter in a code's string: an error, a warning or information.
pub open spec fn code_class(code: DiagnosticCode) -> char {
    match code {
        DiagnosticCode::UnknownMarker => 'W',
        DiagnosticCode::DeprecatedMarker => 'W',
        DiagnosticCode::UnclosedMarker => 'E',
        DiagnosticCode::StrayCloseMarker => 'E',
        DiagnosticCode::MisnestedMarker => 'E',
        DiagnosticCode::MissingNestingPrefix => 'E',
        DiagnosticCode::ImplicitClose => 'E',
        DiagnosticCode::UnclosedNote => 'E',
        DiagnosticCode::UnclosedAtEof => 'E',
        DiagnosticCode::InvalidChapterSequence => 'E',
        DiagnosticCode::InvalidVerseSequence => 'E',
        DiagnosticCode::DuplicateChapter => 'E',
        DiagnosticCode::DuplicateId => 'E',
        DiagnosticCode::MissingIdMarker => 'E',
        DiagnosticCode::InvalidBookCode => 'E',
        DiagnosticCode::NoteSubmarkerOutsideNote => 'E',
        DiagnosticCode::TextBeforeId => 'E',
        DiagnosticCode::NonAsciiVerseDigits => 'E',
        DiagnosticCode::HeaderAfterBody => 'W',
        DiagnosticCode::MilestoneMismatch => 'E',
        DiagnosticCode::MixedNormalization => 'I',
        DiagnosticCode::JoinerInMarkerName => 'W',
        DiagnosticCode::JoinerAtMarkerBoundary => 'I',
        DiagnosticCode::InvalidAttributes => 'E',
        DiagnosticCode::MissingChapterNumber => 'E',
        DiagnosticCode::MissingVerseNumber => 'E',
        DiagnosticCode::VerseOutsideParagraph => 'W',
        DiagnosticCode::MissingChapterMarker => 'E',
        DiagnosticCode::CharCrossesVerseBoundary => 'W',
        DiagnosticCode::EmptyFigure => 'W',
        DiagnosticCode::UnquotedAttributeValue => 'W',
        DiagnosticCode::MissingRequiredAttribute => 'E',
        DiagnosticCode::DefaultAttributeNotDefined => 'E',
        DiagnosticCode::BodyParagraphBeforeChapter => 'W',
        DiagnosticCode::NonEmptyBlankLine => 'W',
        DiagnosticCode::LeadingZeros => 'W',
        DiagnosticCode::EmptyWordMarker => 'W',
        DiagnosticCode::MissingMilestoneSelfClose => 'E',
        DiagnosticCode::InvalidTableColumnSequence => 'E',
        DiagnosticCode::MarkerNewerThanDocument => 'I',
        DiagnosticCode::LegacyFigureSyntax => 'W',
        DiagnosticCode::DuplicateVerse => 'E',
        DiagnosticCode::VerseGap => 'I',
    }
}

/// The code a number belongs to.
pub open spec fn code_with_number(n: nat) -> Option<DiagnosticCode> {
    if n == 1 {
        Some(DiagnosticCode::UnknownMarker)
    } else if n == 2 {
        Some(DiagnosticCode::DeprecatedMarker)
    } else if n == 3 {
        Some(DiagnosticCode::UnclosedMarker)
    } else if n == 4 {
        Some(DiagnosticCode::StrayCloseMarker)
    } else if n == 5 {
        Some(DiagnosticCode::MisnestedMarker)
    } else if n == 6 {
        Some(DiagnosticCode::MissingNestingPrefix)
    } else if n == 7 {
        Some(DiagnosticCode::ImplicitClose)
    } else if n == 8 {
        Some(DiagnosticCode::UnclosedNote)
    } else if n == 9 {
        Some(DiagnosticCode::UnclosedAtEof)
    } else if n == 10 {
        Some(DiagnosticCode::InvalidChapterSequence)
    } else if n == 11 {
        Some(DiagnosticCode::InvalidVerseSequence)
    } else if n == 12 {
        Some(DiagnosticCode::DuplicateChapter)
    } else if n == 13 {
        Some(DiagnosticCode::DuplicateId)
    } else if n == 14 {
        Some(DiagnosticCode::MissingIdMarker)
    } else if n == 15 {
        Some(DiagnosticCode::InvalidBookCode)
    } else if n == 16 {
        Some(DiagnosticCode::NoteSubmarkerOutsideNote)
    } else if n == 17 {
        Some(DiagnosticCode::TextBeforeId)
    } else if n == 18 {
        Some(DiagnosticCode::NonAsciiVerseDigits)
    } else if n == 19 {
        Some(DiagnosticCode::HeaderAfterBody)
    } else if n == 20 {
        Some(DiagnosticCode::MilestoneMismatch)
    } else if n == 21 {
        Some(DiagnosticCode::MixedNormalization)
    } else if n == 22 {
        Some(DiagnosticCode::JoinerInMarkerName)
    } else if n == 23 {
        Some(DiagnosticCode::JoinerAtMarkerBoundary)
    } else if n == 24 {
        Some(DiagnosticCode::InvalidAttributes)
    } else if n == 25 {
        Some(DiagnosticCode::MissingChapterNumber)
    } else if n == 26 {
        Some(DiagnosticCode::MissingVerseNumber)
    } else if n == 27 {
        Some(DiagnosticCode::VerseOutsideParagraph)
    } else if n == 28 {
        Some(DiagnosticCode::MissingChapterMarker)
    } else if n == 29 {
        Some(DiagnosticCode::CharCrossesVerseBoundary)
    } else if n == 30 {
        Some(DiagnosticCode::EmptyFigure)
    } else if n == 31 {
        Some(DiagnosticCode::UnquotedAttributeValue)
    } else if n == 32 {
        Some(DiagnosticCode::MissingRequiredAttribute)
    } else if n == 33 {
        Some(DiagnosticCode::DefaultAttributeNotDefined)
    } else if n == 34 {
        Some(DiagnosticCode::BodyParagraphBeforeChapter)
    } else if n == 35 {
        Some(DiagnosticCode::NonEmptyBlankLine)
    } else if n == 36 {
        Some(DiagnosticCode::LeadingZeros)
    } else if n == 37 {
        Some(DiagnosticCode::EmptyWordMarker)
    } else if n == 38 {
        Some(DiagnosticCode::MissingMilestoneSelfClose)
    } else if n == 39 {
        Some(DiagnosticCode::InvalidTableColumnSequence)
    } else if n == 40 {
        Some(DiagnosticCode::MarkerNewerThanDocument)
    } else if n == 41 {
        Some(DiagnosticCode::LegacyFigureSyntax)
    } else if n == 42 {
        Some(DiagnosticCode::DuplicateVerse)
    } else if n == 43 {
        Some(DiagnosticCode::VerseGap)
    } else {
        None
    }
}

/// A decimal digit's character.
pub open spec fn digit_of(d: nat) -> char {
    if d == 0 { '0' } else if d == 1 { '1' } else if d == 2 { '2' } else if d == 3 { '3' } else if d == 4 {
        '4'
    } else if d == 5 { '5' } else if d == 6 { '6' } else if d == 7 { '7' } else if d == 8 { '8' } else { '9' }
}

/// A number below a thousand as three decimal digits.
pub open spec fn three_digits(n: nat) -> Seq<char> {
    seq![digit_of(n / 100), digit_of((n / 10) % 10), digit_of(n % 10)]
}

/// Each code's number names it.
proof fn lemma_number_names(code: DiagnosticCode)
    ensures
        code_with_number(code_number(code)) == Some(code),
        code_number(code) < 1000,
{
}

/// A code's string is `USFM-`, its class letter and its number in three digits.
proof fn lemma_code_shape(code: DiagnosticCode)
    ensures
        code_name(code) == "USFM-"@ + seq![code_class(code)] + three_digits(code_number(code)),
{
    reveal_strlit("USFM-W001");
    reveal_strlit("USFM-W002");
    reveal_strlit("USFM-E003");
    reveal_strlit("USFM-E004");
    reveal_strlit("USFM-E005");
    reveal_strlit("USFM-E006");
    reveal_strlit("USFM-E007");
    reveal_strlit("USFM-E008");
    reveal_strlit("USFM-E009");
    reveal_strlit("USFM-E010");
    reveal_strlit("USFM-E011");
    reveal_strlit("USFM-E012");
    reveal_strlit("USFM-E013");
    reveal_strlit("USFM-E014");
    reveal_strlit("USFM-E015");
    reveal_strlit("USFM-E016");
    reveal_strlit("USFM-E017");
    reveal_strlit("USFM-E018");
    reveal_strlit("USFM-W019");
    reveal_strlit("USFM-E020");
    reveal_strlit("USFM-I021");
    reveal_strlit("USFM-W022");
    reveal_strlit("USFM-I023");
    reveal_strlit("USFM-E024");
    reveal_strlit("USFM-E025");
    reveal_strlit("USFM-E026");
    reveal_strlit("USFM-W027");
    reveal_strlit("USFM-E028");
    reveal_strlit("USFM-W029");
    reveal_strlit("USFM-W030");
    reveal_strlit("USFM-W031");
    reveal_strlit("USFM-E032");
    reveal_strlit("USFM-E033");
    reveal_strlit("USFM-W034");
    reveal_strlit("USFM-W035");
    reveal_strlit("USFM-W036");
    reveal_strlit("USFM-W037");
    reveal_strlit("USFM-E038");
    reveal_strlit("USFM-E039");
    reveal_strlit("USFM-I040");
    reveal_strlit("USFM-W041");
    reveal_strlit("USFM-E042");
    reveal_strlit("USFM-I043");
    reveal_strlit("USFM-");
}

/// Three digits name their number.
proof fn lemma_three_digits(a: nat, b: nat)
    requires
        a < 1000,
        b < 1000,
        three_digits(a) == three_digits(b),
    ensures
        a == b,
{
    assert(three_digits(a)[0] == three_digits(b)[0]);
    assert(three_digits(a)[1] == three_digits(b)[1]);
    assert(three_digits(a)[2] == three_digits(b)[2]);
    assert(a / 100 < 10 && b / 100 < 10) by (nonlinear_arith)
        requires
            a < 1000,
            b < 1000;
    lemma_digit_of_injective(a / 100, b / 100);
    lemma_digit_of_injective((a / 10) % 10, (b / 10) % 10);
    lemma_digit_of_injective(a % 10, b % 10);
    assert(a == 100 * (a / 100) + 10 * ((a / 10) % 10) + a % 10) by (nonlinear_arith);
    assert(b == 100 * (b / 100) + 10 * ((b / 10) % 10) + b % 10) by (nonlinear_arith);
}

proof fn lemma_digit_of_injective(x: nat, y: nat)
    requires
        x < 10,
        y < 10,
        digit_of(x) == digit_of(y),
    ensures
        x == y,
{
}

/// Every code's string is `USFM-`, then `E`, `W` or `I`, then three ASCII
/// digits; and no two codes share a string.
pub proof fn codes_are_well_formed_and_unique(a: DiagnosticCode, b: DiagnosticCode)
    ensures
        code_name(a).len() == 9,
        code_name(a).take(5) == "USFM-"@,
        code_name(a)[5] == 'E' || code_name(a)[5] == 'W' || code_name(a)[5] == 'I',
        forall|k: int| 6 <= k < 9 ==> '0' <= #[trigger] code_name(a)[k] <= '9',
        code_name(a) == code_name(b) ==> a == b,
{
    lemma_code_shape(a);
    lemma_code_shape(b);
    lemma_number_names(a);
    lemma_number_names(b);
    reveal_strlit("USFM-");
    let na = code_name(a);
    assert(na.take(5) =~= "USFM-"@);
    assert(na.subrange(6, 9) =~= three_digits(code_number(a)));
    if code_name(a) == code_name(b) {
        assert(code_name(b).subrange(6, 9) =~= three_digits(code_number(b)));
        lemma_three_digits(code_number(a), code_number(b));
    }
}

} // verus!
