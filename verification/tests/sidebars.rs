use usfm_core::backend::diagnostics::{is_closed_sidebar, without_false_sidebar_pairs};
use usfm_core::{ByteSpan, Diagnostic, DiagnosticCode, Severity};

fn at(code: DiagnosticCode, start: usize, end: usize) -> Diagnostic {
    Diagnostic { code, severity: Severity::Error, span: ByteSpan::new(start, end), message: String::new() }
}

fn codes(diagnostics: &[Diagnostic]) -> Vec<&'static str> {
    diagnostics.iter().map(|diagnostic| diagnostic.code.as_str()).collect()
}

#[test]
fn a_closed_sidebar_loses_both_of_its_false_errors() {
    let source = "\\esb\n\\p body\n\\esbe\n";
    let found = without_false_sidebar_pairs(
        vec![at(DiagnosticCode::UnclosedAtEof, 0, 18), at(DiagnosticCode::StrayCloseMarker, 13, 18)],
        source,
    );
    assert!(found.is_empty(), "{:?}", codes(&found));
}

#[test]
fn an_unclosed_sidebar_keeps_its_error() {
    let source = "\\esb\n\\p body\n";
    let found = without_false_sidebar_pairs(vec![at(DiagnosticCode::UnclosedAtEof, 0, 13)], source);
    assert_eq!(codes(&found), ["USFM-E009"]);
}

#[test]
fn a_stray_closer_keeps_its_error() {
    let source = "\\p a\n\\esbe\n";
    let found = without_false_sidebar_pairs(vec![at(DiagnosticCode::StrayCloseMarker, 5, 10)], source);
    assert_eq!(codes(&found), ["USFM-E004"]);
}

#[test]
fn a_stray_closer_elsewhere_survives_a_closed_block() {
    let source = "\\esb\n\\p a\n\\esbe\n\\p x\n\\esbe\n";
    let found = without_false_sidebar_pairs(
        vec![
            at(DiagnosticCode::UnclosedAtEof, 0, 15),
            at(DiagnosticCode::StrayCloseMarker, 10, 15),
            at(DiagnosticCode::StrayCloseMarker, 21, 26),
        ],
        source,
    );
    assert_eq!(codes(&found), ["USFM-E004"]);
    assert_eq!(found[0].span.start, 21);
}

#[test]
fn an_outer_block_left_open_by_a_closed_inner_one_still_reports() {
    let source = "\\esb\n\\esb\n\\p a\n\\esbe\n";
    let found = without_false_sidebar_pairs(
        vec![
            at(DiagnosticCode::UnclosedAtEof, 0, 21),
            at(DiagnosticCode::UnclosedAtEof, 5, 20),
            at(DiagnosticCode::StrayCloseMarker, 15, 20),
        ],
        source,
    );
    assert_eq!(codes(&found), ["USFM-E009"]);
    assert_eq!(found[0].span.start, 0, "the outer block is the unclosed one");
}

#[test]
fn nothing_else_is_touched() {
    let source = "\\esb\n\\p body\n\\esbe\n";
    let found = without_false_sidebar_pairs(
        vec![
            at(DiagnosticCode::UnclosedAtEof, 0, 18),
            at(DiagnosticCode::StrayCloseMarker, 13, 18),
            at(DiagnosticCode::UnknownMarker, 5, 7),
        ],
        source,
    );
    assert_eq!(codes(&found), [DiagnosticCode::UnknownMarker.as_str()]);
}

#[test]
fn a_document_with_no_sidebars_is_returned_untouched() {
    let source = "\\p a\n\\bd unclosed\n";
    let given = vec![at(DiagnosticCode::UnclosedAtEof, 5, 17), at(DiagnosticCode::StrayCloseMarker, 5, 10)];
    let found = without_false_sidebar_pairs(given.clone(), source);
    assert_eq!(found.len(), given.len());
}

#[test]
fn a_span_that_is_only_the_closer_is_not_read_as_a_closed_block() {
    assert!(!is_closed_sidebar("\\esbe"));
    assert!(!is_closed_sidebar("\\esbfoo\n\\esbe"));
    assert!(is_closed_sidebar("\\esb\n\\esbe"));
    assert!(is_closed_sidebar("\\esb \n\\p a\n\\esbe"));
}
