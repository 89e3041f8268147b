use usfm_core::invariants::{check, check_document, check_source, check_offsets, check_session, check_span};
use usfm_core::{ByteSpan, Diagnostic, DiagnosticCode, Node, NodeKind, Session, Severity, VerseIndex};

fn degenerate_cases() -> Vec<&'static str> {
    vec![
        "",
        "\\",
        "\\\\\\\\",
        "\\id",
        "\u{feff}\\id GEN\n",
        "\\c\n\\v\n",
        "\\c 1\r\n\\v 1 text",
        "\\v 1 \u{1D400}க்ஷ\u{200d}\n",
        "\\zi\u{200d}d GEN\n",
        "\\c 99999999999999999999\n",
        "\\v 1-\n",
        "\\fig a|b|c|d|e|f\\fig*",
        "\\c 1\n\\c 1\n\\c 1\n",
        "plain text",
        "\\v 1 cafe\u{301}",
    ]
}

#[test]
fn the_invariants_hold_for_degenerate_input() {
    for case in degenerate_cases() {
        check_source(case).unwrap_or_else(|error| panic!("{case:?}: {error}"));
    }
}

#[test]
fn every_offset_converts_to_utf16_and_back() {
    for case in degenerate_cases() {
        assert_eq!(check_offsets(case), Ok(()), "{case:?}");
    }
}

#[test]
fn a_span_is_checked_for_order_bounds_and_boundaries() {
    let source = "ab\u{1D400}";
    assert_eq!(check_span(source, 0, 6, "node"), Ok(()));
    assert_eq!(check_span(source, 3, 1, "node"), Err("node span 3..1 is inverted".to_string()));
    assert_eq!(check_span(source, 0, 7, "raw"), Err("raw span 0..7 runs past 6 bytes".to_string()));
    assert_eq!(
        check_span(source, 3, 6, "verse"),
        Err("verse span 3..6 does not fall on character boundaries".to_string())
    );
}

#[test]
fn the_first_bad_span_of_a_document_is_reported() {
    let source = "\\id GEN\n\\c 1\n";
    let mut book = Node::new(NodeKind::Book);
    book.span = Some(ByteSpan::new(0, 8));
    let mut chapter = Node::new(NodeKind::Chapter);
    chapter.span = Some(ByteSpan::new(8, 13));
    chapter.raw = Some(ByteSpan::new(12, 40));
    book.children.push(chapter);
    let verses = VerseIndex::build(&[]);
    assert_eq!(
        check_document(source, &[book], &[], &verses),
        Err("raw span 12..40 runs past 13 bytes".to_string())
    );

    let diagnostic = Diagnostic {
        code: DiagnosticCode::UnclosedMarker,
        severity: Severity::Error,
        span: ByteSpan::new(9, 2),
        message: String::new(),
    };
    assert_eq!(
        check_document(source, &[], &[diagnostic], &verses),
        Err("USFM-E003 span 9..2 is inverted".to_string())
    );
}

#[test]
fn a_session_reports_a_chunk_node_out_of_bounds() {
    let session = Session::new("\\id GEN\n\\c 1\n");
    let mut para = Node::new(NodeKind::Para);
    para.span = Some(ByteSpan::new(10, 99));
    let contents = vec![Vec::new(), vec![para]];
    assert_eq!(check_session(&session, &contents), Err("chunked node span 10..99 runs past 13 bytes".to_string()));
}
