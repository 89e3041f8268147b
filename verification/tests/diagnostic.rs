use std::collections::HashSet;
use usfm_core::{DiagnosticCode, Severity};

#[test]
fn codes_are_unique() {
    let mut seen = HashSet::new();
    for code in DiagnosticCode::all() {
        assert!(seen.insert(code.as_str()), "{} is allocated twice", code.as_str());
    }
}

fn assert_exhaustive(code: DiagnosticCode) {
    match code {
        DiagnosticCode::UnknownMarker => {}
        DiagnosticCode::DeprecatedMarker => {}
        DiagnosticCode::UnclosedMarker => {}
        DiagnosticCode::StrayCloseMarker => {}
        DiagnosticCode::MisnestedMarker => {}
        DiagnosticCode::MissingNestingPrefix => {}
        DiagnosticCode::ImplicitClose => {}
        DiagnosticCode::UnclosedNote => {}
        DiagnosticCode::UnclosedAtEof => {}
        DiagnosticCode::InvalidChapterSequence => {}
        DiagnosticCode::InvalidVerseSequence => {}
        DiagnosticCode::DuplicateChapter => {}
        DiagnosticCode::DuplicateId => {}
        DiagnosticCode::MissingIdMarker => {}
        DiagnosticCode::InvalidBookCode => {}
        DiagnosticCode::NoteSubmarkerOutsideNote => {}
        DiagnosticCode::TextBeforeId => {}
        DiagnosticCode::NonAsciiVerseDigits => {}
        DiagnosticCode::HeaderAfterBody => {}
        DiagnosticCode::MilestoneMismatch => {}
        DiagnosticCode::MixedNormalization => {}
        DiagnosticCode::JoinerInMarkerName => {}
        DiagnosticCode::JoinerAtMarkerBoundary => {}
        DiagnosticCode::InvalidAttributes => {}
        DiagnosticCode::MissingChapterNumber => {}
        DiagnosticCode::MissingVerseNumber => {}
        DiagnosticCode::VerseOutsideParagraph => {}
        DiagnosticCode::MissingChapterMarker => {}
        DiagnosticCode::CharCrossesVerseBoundary => {}
        DiagnosticCode::EmptyFigure => {}
        DiagnosticCode::UnquotedAttributeValue => {}
        DiagnosticCode::MissingRequiredAttribute => {}
        DiagnosticCode::DefaultAttributeNotDefined => {}
        DiagnosticCode::BodyParagraphBeforeChapter => {}
        DiagnosticCode::NonEmptyBlankLine => {}
        DiagnosticCode::LeadingZeros => {}
        DiagnosticCode::EmptyWordMarker => {}
        DiagnosticCode::MissingMilestoneSelfClose => {}
        DiagnosticCode::InvalidTableColumnSequence => {}
        DiagnosticCode::MarkerNewerThanDocument => {}
        DiagnosticCode::LegacyFigureSyntax => {}
        DiagnosticCode::DuplicateVerse => {}
        DiagnosticCode::VerseGap => {}
    }
}

#[test]
fn all_lists_every_variant() {
    let all = DiagnosticCode::all();
    for code in &all {
        assert_exhaustive(*code);
    }
    let unique: HashSet<_> = all.iter().collect();
    assert_eq!(unique.len(), all.len());
}

#[test]
fn codes_documented_before_they_were_emitted_keep_their_numbers() {
    assert_eq!(DiagnosticCode::NonAsciiVerseDigits.as_str(), "USFM-E018");
    assert_eq!(DiagnosticCode::MixedNormalization.as_str(), "USFM-I021");
    assert_eq!(DiagnosticCode::JoinerInMarkerName.as_str(), "USFM-W022");
    assert_eq!(DiagnosticCode::JoinerAtMarkerBoundary.as_str(), "USFM-I023");
}

#[test]
fn every_code_is_well_formed() {
    for code in DiagnosticCode::all() {
        let text = code.as_str();
        let rest = text.strip_prefix("USFM-").expect("USFM- prefix");
        let (letter, number) = rest.split_at(1);
        assert!(matches!(letter, "E" | "W" | "I"), "{text} has severity letter {letter}");
        assert_eq!(number.len(), 3, "{text} is not three digits");
        assert!(number.chars().all(|c| c.is_ascii_digit()), "{text}");
    }
}

#[test]
fn severity_orders_information_below_error() {
    assert!(Severity::Information < Severity::Warning);
    assert!(Severity::Warning < Severity::Error);
}

#[test]
fn severities_are_named_for_the_interface() {
    assert_eq!(Severity::Information.as_str(), "information");
    assert_eq!(Severity::Warning.as_str(), "warning");
    assert_eq!(Severity::Error.as_str(), "error");
}
