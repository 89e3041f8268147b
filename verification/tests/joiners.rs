use usfm_core::joiners::{diagnostics, is_joiner};
use usfm_core::DiagnosticCode;

fn codes(source: &str) -> Vec<DiagnosticCode> {
    diagnostics(source).into_iter().map(|d| d.code).collect()
}

#[test]
fn a_joiner_inside_a_marker_name_is_a_warning() {
    assert_eq!(codes("\\b\u{200d}d text\n"), vec![DiagnosticCode::JoinerInMarkerName]);
}

#[test]
fn a_joiner_straight_after_a_backslash_is_the_same_mistake() {
    assert_eq!(codes("\\\u{200d}p text\n"), vec![DiagnosticCode::JoinerInMarkerName]);
}

#[test]
fn a_joiner_against_a_marker_boundary_is_information() {
    assert_eq!(codes("\\p text\u{200d}\\bd bold\\bd*\n"), vec![DiagnosticCode::JoinerAtMarkerBoundary]);
    assert_eq!(codes("\\bd\u{200d} bold\n"), vec![DiagnosticCode::JoinerAtMarkerBoundary]);
}

#[test]
fn a_joiner_in_ordinary_text_is_not_reported() {
    assert!(codes("\\p \u{915}\u{94d}\u{200d}\u{937} text\n").is_empty());
    assert!(codes("\\v 1 word\u{200c}word more\n").is_empty());
}

#[test]
fn both_joiners_are_recognised_and_named() {
    for joiner in ['\u{200c}', '\u{200d}'] {
        let source = format!("\\b{joiner}d text\n");
        let found = diagnostics(&source);
        assert_eq!(found.len(), 1, "{joiner:?}");
        assert!(found[0].message.contains("U+200"), "{}", found[0].message);
    }
}

#[test]
fn the_span_covers_the_joiner_and_nothing_else() {
    let source = "\\b\u{200d}d text\n";
    let found = diagnostics(source);
    assert_eq!(found[0].span.slice(source), Some("\u{200d}"));
}

#[test]
fn a_clean_document_reports_nothing() {
    assert!(diagnostics("\\id GEN\n\\c 1\n\\p\n\\v 1 plain text\n").is_empty());
}

#[test]
fn the_messages_name_the_code_point() {
    let inside = diagnostics("\\b\u{200c}d x");
    assert_eq!(
        inside[0].message,
        "U+200C zero-width non-joiner is inside a marker name, which makes it a marker USFM does not define"
    );
    let boundary = diagnostics("\\bd\u{200d} x");
    assert_eq!(
        boundary[0].message,
        "U+200D zero-width joiner sits against a marker boundary; check it is where you meant"
    );
    assert!(is_joiner('\u{200d}') && is_joiner('\u{200c}') && !is_joiner('a'));
}

#[test]
fn a_joiner_after_multibyte_text_has_a_byte_span() {
    let source = "க\\p\u{200d}";
    let found = diagnostics(source);
    assert_eq!(found.len(), 1);
    assert_eq!((found[0].span.start, found[0].span.end), (5, 8));
}
