use usfm_core::chunk::{
    chunk_parse_diagnostics, context_prefix, header_book_code, is_document_scoped, shift_span, strip_prefix,
    translate, unshift_span,
};
use usfm_core::markers::MarkerTable;
use usfm_core::{ByteSpan, Diagnostic, DiagnosticCode, DiagnosticConfig, Marker, Node, NodeKind, Session, Severity};

fn diagnostic(code: DiagnosticCode, start: usize, end: usize) -> Diagnostic {
    Diagnostic { code, severity: Severity::Error, span: ByteSpan::new(start, end), message: format!("{start}") }
}

fn spanned(kind: NodeKind, start: usize, end: usize) -> Node {
    let mut n = Node::new(kind);
    n.span = Some(ByteSpan::new(start, end));
    n
}

fn starts(ds: &[Diagnostic]) -> Vec<(DiagnosticCode, usize, usize)> {
    ds.iter().map(|d| (d.code, d.span.start, d.span.end)).collect()
}

#[test]
fn document_wide_codes_are_left_to_the_header() {
    assert!(is_document_scoped(DiagnosticCode::MissingIdMarker));
    assert!(is_document_scoped(DiagnosticCode::DuplicateChapter));
    assert!(is_document_scoped(DiagnosticCode::InvalidVerseSequence));
    assert!(!is_document_scoped(DiagnosticCode::UnknownMarker));
}

#[test]
fn spans_move_forward_and_back_stopping_at_zero() {
    assert_eq!(shift_span(&ByteSpan::new(2, 5), 10), ByteSpan::new(12, 15));
    assert_eq!(unshift_span(&ByteSpan::new(12, 15), 10), ByteSpan::new(2, 5));
    assert_eq!(unshift_span(&ByteSpan::new(3, 15), 10), ByteSpan::new(0, 5));
}

#[test]
fn the_synthetic_context_is_stripped_from_the_tree() {
    let mut book = spanned(NodeKind::Book, 0, 8);
    book.marker = Some(Marker::new("id"));
    let mut chapter = spanned(NodeKind::Chapter, 8, 13);
    chapter.raw = Some(ByteSpan::new(9, 12));
    let mut para = spanned(NodeKind::Para, 13, 30);
    para.children.push(spanned(NodeKind::Verse, 16, 20));
    let mut text = Node::new(NodeKind::Text);
    text.text = Some("words".to_string());
    para.children.push(text);

    assert!(strip_prefix(&book, 8).is_none());
    let chapter = strip_prefix(&chapter, 8).unwrap();
    assert_eq!(chapter.span, Some(ByteSpan::new(0, 5)));
    assert_eq!(chapter.raw, Some(ByteSpan::new(1, 4)));
    let para = strip_prefix(&para, 8).unwrap();
    assert_eq!(para.span, Some(ByteSpan::new(5, 22)));
    assert_eq!(para.children.len(), 2);
    assert_eq!(para.children[0].span, Some(ByteSpan::new(8, 12)));
    assert_eq!(para.children[1].text.as_deref(), Some("words"));
}

#[test]
fn without_context_the_tree_is_kept_as_it_is() {
    let node = spanned(NodeKind::Chapter, 0, 0);
    assert_eq!(strip_prefix(&node, 0), Some(spanned(NodeKind::Chapter, 0, 0)));
}

#[test]
fn translation_moves_every_span_in_the_tree() {
    let mut para = spanned(NodeKind::Para, 1, 9);
    para.raw = Some(ByteSpan::new(2, 3));
    para.children.push(spanned(NodeKind::Char, 4, 6));
    let moved = translate(&para, 100);
    assert_eq!(moved.span, Some(ByteSpan::new(101, 109)));
    assert_eq!(moved.raw, Some(ByteSpan::new(102, 103)));
    assert_eq!(moved.children[0].span, Some(ByteSpan::new(104, 106)));
}

#[test]
fn a_chunk_keeps_only_the_parser_diagnostics_it_can_vouch_for() {
    let parsed = vec![
        diagnostic(DiagnosticCode::UnknownMarker, 20, 24),
        diagnostic(DiagnosticCode::MissingIdMarker, 0, 1),
        diagnostic(DiagnosticCode::UnclosedMarker, 2, 6),
        diagnostic(DiagnosticCode::UnclosedMarker, 12, 18),
    ];
    let kept = chunk_parse_diagnostics(parsed.clone(), 8, false, false);
    assert_eq!(starts(&kept), vec![(DiagnosticCode::UnclosedMarker, 4, 10)]);

    let header = chunk_parse_diagnostics(parsed, 0, true, true);
    assert_eq!(
        starts(&header),
        vec![
            (DiagnosticCode::MissingIdMarker, 0, 1),
            (DiagnosticCode::UnclosedMarker, 2, 6),
            (DiagnosticCode::UnclosedMarker, 12, 18),
        ]
    );
}

#[test]
fn a_chapter_is_parsed_behind_an_id_line_naming_the_book() {
    assert_eq!(context_prefix(false, Some("GEN")), "\\id GEN\n");
    assert_eq!(context_prefix(true, Some("GEN")), "");
    assert_eq!(context_prefix(false, None), "");
}

#[test]
fn the_book_code_is_the_word_after_the_id_marker() {
    let source = "\\usfm 3.1\n\\id  JHN - John\n\\c 1\n\\id XYZ\n";
    assert_eq!(header_book_code(source, 25).as_deref(), Some("JHN"));
    assert_eq!(header_book_code("\\id\tROM\n", 8).as_deref(), Some("ROM"));
    assert_eq!(header_book_code("\\ide UTF-8\n\\id GEN\n", 19), None);
    assert_eq!(header_book_code("\\id \n\\id GEN\n", 13), None);
    assert_eq!(header_book_code("\\h x\n\\c 1\n\\id GEN\n", 5), None);
}

#[test]
fn a_session_reads_its_book_code_from_the_header_chunk() {
    let session = Session::new("\\id MRK Mark\n\\c 1\n\\p\n");
    assert_eq!(session.book_code().as_deref(), Some("MRK"));
    let headless = Session::new("\\c 1\n\\id MRK\n");
    assert_eq!(headless.book_code(), None);
}

#[test]
fn a_parsed_chunk_is_stripped_of_its_context() {
    let session = Session::new("\\id MRK Mark\n\\c 1\n\\p\n");
    let tree = vec![spanned(NodeKind::Book, 0, 8), spanned(NodeKind::Chapter, 8, 13), spanned(NodeKind::Para, 13, 16)];
    let diagnostics = vec![diagnostic(DiagnosticCode::MissingIdMarker, 9, 10), diagnostic(DiagnosticCode::UnclosedMarker, 13, 15)];
    let (content, kept) = session.parsed_chunk(1, &tree, diagnostics);
    assert_eq!(content.len(), 2);
    assert_eq!(content[0].span, Some(ByteSpan::new(0, 5)));
    assert_eq!(content[1].span, Some(ByteSpan::new(5, 8)));
    assert_eq!(starts(&kept), vec![(DiagnosticCode::UnclosedMarker, 5, 7)]);

    let content = session.placed_content(1, &content);
    assert_eq!(content[0].span, Some(ByteSpan::new(13, 18)));
}

#[test]
fn chunk_diagnostics_add_marker_conditions_and_leave_out_suppressed_codes() {
    let table = MarkerTable::parse("[p]\nclass = \"paragraph\"\nclosing = \"implicit\"\n").unwrap();
    let config = DiagnosticConfig::for_source("\\id MRK\n\\c 1\n\\p\n\\xq x\n").suppress(DiagnosticCode::UnclosedMarker);
    let session = Session::with_config("\\id MRK\n\\c 1\n\\p\n\\xq x\n", config);
    let parsed = vec![diagnostic(DiagnosticCode::UnclosedMarker, 0, 2), diagnostic(DiagnosticCode::EmptyFigure, 3, 4)];
    let mut unknown = spanned(NodeKind::Para, 16, 22);
    unknown.marker = Some(Marker::new("xq"));
    let found = session.judged_diagnostics(1, &parsed, &[unknown], &table);
    assert_eq!(found[0].code, DiagnosticCode::EmptyFigure);
    assert_eq!((found[0].span.start, found[0].span.end), (11, 12));
    assert_eq!(found[1].code, DiagnosticCode::UnknownMarker);
    assert_eq!(found.len(), 2);
}

#[test]
fn all_diagnostics_come_in_source_order_with_the_cross_chunk_ones() {
    let session = Session::new("\\id MRK\n\\c 1\n\\p\n\\c 1\n\\p\n");
    let per_chunk = vec![
        vec![diagnostic(DiagnosticCode::UnclosedMarker, 3, 4)],
        vec![diagnostic(DiagnosticCode::UnclosedMarker, 14, 15)],
        vec![diagnostic(DiagnosticCode::UnclosedMarker, 22, 23), diagnostic(DiagnosticCode::EmptyFigure, 1, 2)],
    ];
    let all = session.gathered_diagnostics(&per_chunk);
    let order: Vec<usize> = all.iter().map(|d| d.span.start).collect();
    assert_eq!(order, vec![1, 3, 14, 16, 22]);
    assert_eq!(all[3].code, DiagnosticCode::DuplicateChapter);
}

#[test]
fn a_header_that_chapters_follow_does_not_report_them_missing() {
    let parsed = vec![diagnostic(DiagnosticCode::MissingChapterMarker, 0, 0), diagnostic(DiagnosticCode::MissingIdMarker, 0, 1)];
    let followed = chunk_parse_diagnostics(parsed.clone(), 0, true, false);
    assert_eq!(starts(&followed), vec![(DiagnosticCode::MissingIdMarker, 0, 1)]);
    let alone = chunk_parse_diagnostics(parsed, 0, true, true);
    assert_eq!(alone.len(), 2);
}
