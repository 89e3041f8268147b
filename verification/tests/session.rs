use usfm_core::{Applied, ByteSpan, DiagnosticCode, Edit, EditError, NodeKind, Session, Severity};
use usfm_core::markers::MarkerTable;
use usfm_core::completion::Context;
use usfm_core::parsed::Document;

fn book(chapters: usize, verses_per_chapter: usize) -> String {
    let mut text = String::from("\\id GEN Genesis\n\\h Genesis\n");
    for chapter in 1..=chapters {
        text.push_str(&format!("\\c {chapter}\n\\p\n"));
        for verse in 1..=verses_per_chapter {
            text.push_str(&format!("\\v {verse} In the beginning God created.\n"));
        }
    }
    text
}

fn table(session: &Session) -> Vec<(Option<u32>, usize, usize)> {
    session
        .chunks()
        .iter()
        .map(|c| (c.number(), c.range().start, c.range().end))
        .collect()
}

fn assert_fresh(session: &Session) {
    let fresh = Session::new(session.source());
    assert_eq!(table(session), table(&fresh), "table differs from a fresh split of\n{}", session.source());
}

#[test]
fn a_document_partitions_at_chapter_markers() {
    let session = Session::new(&book(3, 2));
    let numbers: Vec<_> = session.chunks().iter().map(|c| c.number()).collect();
    assert_eq!(numbers, vec![None, Some(1), Some(2), Some(3)]);
}

#[test]
fn chunks_tile_the_document_exactly() {
    let session = Session::new(&book(4, 3));
    let mut expected_start = 0;
    for chunk in session.chunks() {
        assert_eq!(chunk.range().start, expected_start, "gap or overlap");
        expected_start = chunk.range().end;
    }
    assert_eq!(expected_start, session.source().len());
}

#[test]
fn a_document_with_no_chapter_is_a_single_header_chunk() {
    let session = Session::new("\\id GEN\n\\h Genesis\n");
    assert_eq!(session.chunks().len(), 1);
    assert_eq!(session.chunks()[0].number(), None);
}

#[test]
fn a_document_starting_at_a_chapter_has_no_header_chunk() {
    let session = Session::new("\\c 1\n\\p\n\\v 1 text\n");
    assert_eq!(session.chunks().len(), 1);
    assert_eq!(session.chunks()[0].number(), Some(1));
}

#[test]
fn markers_that_merely_begin_with_c_are_not_boundaries() {
    let session = Session::new("\\c 1\n\\cl Psalm\n\\cp A\n\\ca 2\\ca*\n\\p\n\\v 1 text\n");
    assert_eq!(session.chunks().len(), 1);
    assert_eq!(session.chunks()[0].number(), Some(1));
}

#[test]
fn a_chapter_marker_that_is_not_line_initial_is_not_a_boundary() {
    let session = Session::new("\\c 1\n\\p\n\\v 1 text \\c 2 still verse one\n");
    assert_eq!(session.chunks().len(), 1);
}

#[test]
fn an_unnumbered_chapter_still_opens_a_chunk() {
    let session = Session::new("\\id GEN\n\\c\n\\p\n\\v 1 text\n");
    assert_eq!(session.chunks().len(), 2);
    assert_eq!(session.chunks()[1].number(), None);
}

#[test]
fn an_edit_inside_a_chapter_invalidates_only_that_chapter() {
    let mut session = Session::new(&book(10, 5));
    let target = session.chunks()[5].range();
    let at = target.start + 20;
    let applied = session.edit(ByteSpan::new(at, at), "X").expect("edit applies");
    assert_eq!(applied.invalidated, 1, "more than one chunk was invalidated");
    assert_eq!(applied.shifted, 5, "later chapters should only have moved");
}

#[test]
fn every_revision_is_recorded_on_the_chunks_that_changed() {
    let mut session = Session::new(&book(5, 3));
    assert_eq!(session.rev(), 0);
    let at = session.chunks()[3].range().start + 8;
    session.edit(ByteSpan::new(at, at), "Z").expect("edit applies");
    assert_eq!(session.rev(), 1);
    let revised: Vec<u64> = session.chunks().iter().map(|c| c.rev()).collect();
    assert_eq!(revised, vec![0, 0, 0, 1, 0, 0]);
}

#[test]
fn inserting_a_chapter_marker_splits_a_chunk() {
    let mut session = Session::new("\\id GEN\n\\c 1\n\\p\n\\v 1 one\n\\v 2 two\n");
    assert_eq!(session.chunks().len(), 2);
    let at = session.source().find("\\v 2").expect("verse two");
    session.edit(ByteSpan::new(at, at), "\\c 2\n\\p\n").expect("edit applies");
    let numbers: Vec<_> = session.chunks().iter().map(|c| c.number()).collect();
    assert_eq!(numbers, vec![None, Some(1), Some(2)]);
}

#[test]
fn deleting_a_chapter_marker_merges_with_the_chunk_before_it() {
    let mut session = Session::new("\\id GEN\n\\c 1\n\\p\n\\v 1 one\n\\c 2\n\\p\n\\v 1 two\n");
    assert_eq!(session.chunks().len(), 3);
    let at = session.source().find("\\c 2\n").expect("chapter two");
    session.edit(ByteSpan::new(at, at + "\\c 2\n".len()), "").expect("edit applies");
    let numbers: Vec<_> = session.chunks().iter().map(|c| c.number()).collect();
    assert_eq!(numbers, vec![None, Some(1)], "chapter 2 should have merged");
    assert!(session.source().contains("\\v 1 two"), "text was lost");
}

#[test]
fn breaking_a_chapter_marker_merges_it_away() {
    let mut session = Session::new("\\id GEN\n\\c 1\n\\p\n\\v 1 one\n\\c 2\n\\p\n\\v 1 two\n");
    let at = session.source().find("\\c 2").expect("chapter two");
    session.edit(ByteSpan::new(at, at + 1), "").expect("edit applies");
    let numbers: Vec<_> = session.chunks().iter().map(|c| c.number()).collect();
    assert_eq!(numbers, vec![None, Some(1)]);
}

#[test]
fn repairing_a_chapter_marker_splits_it_back_out() {
    let mut session = Session::new("\\id GEN\n\\c 1\n\\p\n\\v 1 one\nc 2\n\\p\n\\v 1 two\n");
    assert_eq!(session.chunks().len(), 2);
    let at = session.source().find("c 2").expect("broken marker");
    session.edit(ByteSpan::new(at, at), "\\").expect("edit applies");
    let numbers: Vec<_> = session.chunks().iter().map(|c| c.number()).collect();
    assert_eq!(numbers, vec![None, Some(1), Some(2)]);
}

#[test]
fn joining_two_lines_across_a_boundary_merges_the_chunks() {
    let mut session = Session::new("\\id GEN\n\\c 1\n\\p\n\\v 1 one\n\\c 2\n\\p\n\\v 1 two\n");
    let newline = session.source().find("\\c 2").expect("chapter two") - 1;
    session.edit(ByteSpan::new(newline, newline + 1), "").expect("edit applies");
    let numbers: Vec<_> = session.chunks().iter().map(|c| c.number()).collect();
    assert_eq!(numbers, vec![None, Some(1)]);
}

#[test]
fn typing_a_chapter_marker_one_character_at_a_time_ends_in_one_chunk_per_chapter() {
    let mut session = Session::new("\\id GEN\n\\c 1\n\\p\n\\v 1 one\n");
    let mut at = session.source().len();
    for character in "\\c 2\n".chars() {
        let mut buffer = [0u8; 4];
        let text = character.encode_utf8(&mut buffer);
        session.edit(ByteSpan::new(at, at), text).expect("edit applies");
        at += text.len();
    }
    let numbers: Vec<_> = session.chunks().iter().map(|c| c.number()).collect();
    assert_eq!(numbers, vec![None, Some(1), Some(2)]);
}

#[test]
fn duplicate_chapters_are_caught_across_chunks() {
    let session = Session::new("\\id GEN\n\\c 1\n\\p\n\\v 1 a\n\\c 1\n\\p\n\\v 1 b\n");
    assert!(
        session
            .cross_chunk_diagnostics()
            .iter()
            .any(|d| d.code == DiagnosticCode::DuplicateChapter),
        "a repeated chapter number went unreported"
    );
}

#[test]
fn a_batch_applies_in_original_document_coordinates() {
    let mut session = Session::new("\\id GEN\n\\c 1\n\\p\n\\v 1 AAA BBB\n");
    let a = session.source().find("AAA").unwrap();
    let b = session.source().find("BBB").unwrap();
    session
        .apply(&[Edit::new(ByteSpan::new(a, a + 3), "one"), Edit::new(ByteSpan::new(b, b + 3), "two")])
        .expect("batch applies");
    assert!(session.source().contains("\\v 1 one two"), "{}", session.source());
}

#[test]
fn an_edit_inside_a_character_is_refused() {
    let mut session = Session::new("\\c 1\n\\p\n\\v 1 க\n");
    let inside = session.source().find('க').unwrap() + 1;
    assert!(matches!(
        session.edit(ByteSpan::new(inside, inside), "x"),
        Err(EditError::NotOnCharBoundary { .. })
    ));
}

#[test]
fn an_edit_past_the_end_is_refused() {
    let mut session = Session::new("\\c 1\n");
    let past = session.source().len() + 10;
    assert!(matches!(
        session.edit(ByteSpan::new(past, past), "x"),
        Err(EditError::OutOfBounds { .. })
    ));
}

#[test]
fn overlapping_edits_are_refused() {
    let mut session = Session::new("\\c 1\n\\p\n\\v 1 abcdef\n");
    assert!(matches!(
        session.apply(&[Edit::new(ByteSpan::new(10, 14), "x"), Edit::new(ByteSpan::new(12, 16), "y")]),
        Err(EditError::Overlapping { .. })
    ));
}

#[test]
fn editing_the_header_chunk_works() {
    let mut session = Session::new(&book(3, 2));
    let applied = session.edit(ByteSpan::new(4, 7), "EXO").expect("edit applies");
    assert_eq!(applied.invalidated, 1);
    assert!(session.source().starts_with("\\id EXO"));
}

#[test]
fn deleting_everything_leaves_one_empty_chunk() {
    let mut session = Session::new(&book(2, 2));
    let length = session.source().len();
    session.edit(ByteSpan::new(0, length), "").expect("edit applies");
    assert_eq!(session.source(), "");
    assert_eq!(session.chunks().len(), 1);
}

// ------------------------------------------------------------------ own ---

#[test]
fn every_edit_leaves_the_table_a_fresh_split_gives() {
    let mut session = Session::new(&book(4, 2));
    let cases: Vec<(usize, usize, &str)> = vec![
        (0, 0, "\\c 0\n"),
        (30, 31, ""),
        (12, 20, "\\c 9\nX"),
        (5, 5, "\n"),
    ];
    for (s, e, insert) in cases {
        session.edit(ByteSpan::new(s, e), insert).expect("edit applies");
        assert_fresh(&session);
    }
    let everything = session.source().len();
    session.edit(ByteSpan::new(everything, everything), "\\c 7").unwrap();
    assert_fresh(&session);
}

#[test]
fn appending_to_an_unterminated_chapter_line_rejoins_the_chunk_before() {
    // "\c" alone on the last line opens a chapter; "\cx" does not, so the
    // chunk it opened has to merge back into the header.
    let mut session = Session::new("\\id X\n\\c");
    assert_eq!(table(&session), vec![(None, 0, 6), (None, 6, 8)]);
    let applied = session.edit(ByteSpan::new(8, 8), "x").unwrap();
    assert_eq!(table(&session), vec![(None, 0, 9)]);
    assert_eq!(applied.invalidated, 1);
    assert_eq!(applied.shifted, 0);
    assert_eq!(applied.invalidated_bytes, 9);
    assert_fresh(&session);
}

#[test]
fn a_refused_edit_leaves_the_text_and_still_counts_a_revision() {
    let mut session = Session::new("\\c 1\n");
    let error = session.edit(ByteSpan::new(3, 2), "x").unwrap_err();
    assert_eq!(error, EditError::OutOfBounds { range: ByteSpan::new(3, 2), len: 5 });
    assert_eq!(session.source(), "\\c 1\n");
    assert_eq!(session.rev(), 1);
}

#[test]
fn an_overlap_is_refused_before_anything_changes() {
    let mut session = Session::new("\\c 1\n\\p\n\\v 1 abcdef\n");
    let error = session
        .apply(&[Edit::new(ByteSpan::new(10, 14), "x"), Edit::new(ByteSpan::new(12, 16), "y")])
        .unwrap_err();
    assert_eq!(error, EditError::Overlapping { previous_end: 14, start: 12 });
    assert_eq!(session.rev(), 0);
    assert_eq!(session.source(), "\\c 1\n\\p\n\\v 1 abcdef\n");
}

#[test]
fn a_refusal_mid_batch_keeps_the_edits_before_it() {
    let mut session = Session::new("\\c 1\n\\p\n\\v 1 க\n");
    let inside = session.source().find('க').unwrap() + 1;
    let error = session
        .apply(&[Edit::new(ByteSpan::new(0, 0), "\\id A\n"), Edit::new(ByteSpan::new(inside, inside), "x")])
        .unwrap_err();
    // the second edit's offset is reported where it landed, after the first
    assert_eq!(error, EditError::NotOnCharBoundary { offset: inside + 6 });
    assert!(session.source().starts_with("\\id A\n\\c 1"));
    assert_eq!(session.rev(), 1);
}

#[test]
fn a_batch_sums_what_its_edits_cost() {
    let mut session = Session::new(&book(3, 3));
    let second = session.chunks()[2].range().start + 10;
    let third = session.chunks()[3].range().start + 10;
    let applied = session
        .apply(&[Edit::new(ByteSpan::new(second, second), "A"), Edit::new(ByteSpan::new(third, third), "B")])
        .unwrap();
    assert_eq!(applied.rev, 1);
    assert_eq!(applied.invalidated, 2);
    assert_eq!(applied.shifted, 1);
    let sizes = session.chunks()[2].range().len() + session.chunks()[3].range().len();
    assert_eq!(applied.invalidated_bytes, sizes);
    assert_fresh(&session);
}

#[test]
fn nothing_applied_costs_nothing() {
    let applied = Applied::default();
    assert_eq!(applied, Applied { rev: 0, invalidated: 0, invalidated_bytes: 0, shifted: 0 });
    let mut session = Session::new("\\c 1\n");
    assert_eq!(session.apply(&[]).unwrap(), Applied { rev: 1, invalidated: 0, invalidated_bytes: 0, shifted: 0 });
}

#[test]
fn refusals_say_what_was_wrong() {
    assert_eq!(
        EditError::OutOfBounds { range: ByteSpan::new(3, 9), len: 5 }.to_string(),
        "edit ByteSpan { start: 3, end: 9 } is outside a document of 5 bytes"
    );
    assert_eq!(EditError::NotOnCharBoundary { offset: 7 }.to_string(), "edit offset 7 falls inside a character");
    assert_eq!(
        EditError::Overlapping { previous_end: 14, start: 12 }.to_string(),
        "edit at 12 overlaps the previous, ending 14"
    );
}

#[test]
fn a_repeated_chapter_is_reported_at_its_marker_line() {
    let source = "\\id GEN\n\\c 1\n\\p\n\\c 2\n\\c 1\n\\p\n\\c 1";
    let session = Session::new(source);
    let found = session.cross_chunk_diagnostics();
    assert_eq!(found.len(), 2);
    assert_eq!(found[0].span, ByteSpan::new(21, 26));
    assert_eq!(found[0].message, "chapter 1 appears more than once");
    assert_eq!(found[0].severity, Severity::Error);
    assert_eq!(found[1].span, ByteSpan::new(29, 33));
    assert!(Session::new(&book(3, 1)).cross_chunk_diagnostics().is_empty());
}

#[test]
fn a_session_keeps_the_configuration_it_was_given() {
    let session = Session::new("\\usfm 3.0\n\\c 1\n");
    assert_eq!(session.config().document_version, usfm_core::Version { major: 3, minor: 0 });
    let other = Session::with_config("\\c 1\n", session.config().clone());
    assert_eq!(other.config().document_version, usfm_core::Version { major: 3, minor: 0 });
}

/// The markers these documents use.
fn marker_table() -> MarkerTable {
    let mut text = String::new();
    for (name, class) in [("id", "unclassified"), ("h", "paragraph"), ("c", "unclassified"), ("v", "unclassified"), ("p", "paragraph"), ("bd", "character"), ("it", "character")] {
        text.push_str(&format!("[{name}]\nclass = \"{class}\"\n"));
    }
    MarkerTable::parse(&text).expect("the table parses")
}

#[test]
fn spans_stay_correct_in_chapters_after_an_edit() {
    let mut session = Session::new(&book(4, 3));
    let _ = session.content();

    let at = session.chunks()[1].range().start + 5;
    session.edit(ByteSpan::new(at, at), "INSERTED").expect("edit applies");

    for (index, chunk) in session.chunks().iter().enumerate() {
        for node in session.chunk_content(index).expect("the chunk fits") {
            let Some(span) = node.span.as_ref() else {
                continue;
            };
            assert!(
                span.start >= chunk.range().start && span.end <= chunk.range().end,
                "{:?} span {span:?} escaped chunk {:?}",
                node.kind,
                chunk.range()
            );
            assert!(span.slice(session.source()).is_some(), "span {span:?} is not sliceable after the edit");
        }
    }
}

fn assert_agrees_with_whole_document(source: &str) {
    let session = Session::new(source);
    let document = Document::parse(source);

    let chunked: Vec<_> = session
        .content()
        .expect("every chunk fits")
        .iter()
        .flat_map(|node| node.descendants().into_iter().map(|n| (n.kind, n.span.clone())).collect::<Vec<_>>())
        .filter(|(kind, _)| *kind == NodeKind::Chapter || *kind == NodeKind::Verse)
        .collect();

    let whole: Vec<_> = document
        .descendants()
        .into_iter()
        .map(|n| (n.kind, n.span.clone()))
        .filter(|(kind, _)| *kind == NodeKind::Chapter || *kind == NodeKind::Verse)
        .collect();

    assert_eq!(chunked, whole, "chunked parse disagrees on\n{source}");
}

#[test]
fn chunked_parsing_agrees_with_whole_document_parsing() {
    assert_agrees_with_whole_document(&book(3, 3));
    assert_agrees_with_whole_document("\\id GEN\n\\c 1\n\\p\n\\v 1 க்ஷேமம்\n\\c 2\n\\p\n\\v 1 שלום\n");
    assert_agrees_with_whole_document("\\c 1\n\\p\n\\v 1 no header chunk\n");
}

#[test]
fn a_chapter_chunk_does_not_report_the_missing_book_identification() {
    let session = Session::new(&book(5, 2));
    let missing_id = session
        .diagnostics(&marker_table())
        .expect("every chunk fits")
        .iter()
        .filter(|d| d.code == DiagnosticCode::MissingIdMarker)
        .count();

    assert_eq!(missing_id, 0, "chapter chunks reported a missing \\id");
}

#[test]
fn a_document_with_chapters_does_not_report_them_missing() {
    let session = Session::new("\\id GEN\n\\c 1\n\\p\n\\v 1 hello\n");
    let found = session.diagnostics(&marker_table()).expect("every chunk fits");
    assert!(found.is_empty(), "a well-formed document reported a diagnostic: {found:?}");
}

#[test]
fn a_document_with_no_chapters_still_reports_them_missing() {
    let session = Session::new("\\id GEN\n\\p\n\\v 1 no chapter anywhere\n");
    let missing: Vec<_> = session
        .diagnostics(&marker_table())
        .expect("every chunk fits")
        .into_iter()
        .filter(|d| d.code == DiagnosticCode::MissingChapterMarker)
        .collect();

    assert_eq!(missing.len(), 1, "expected exactly one, got {missing:?}");
    assert_eq!(missing[0].span, ByteSpan::new(0, 0));
}

#[test]
fn a_chapter_is_not_reported_missing_once_per_chapter() {
    let session = Session::new(&book(5, 2));
    let missing = session
        .diagnostics(&marker_table())
        .expect("every chunk fits")
        .iter()
        .filter(|d| d.code == DiagnosticCode::MissingChapterMarker)
        .count();

    assert_eq!(missing, 0);
}

#[test]
fn diagnostics_are_in_source_order_across_chunks() {
    let session = Session::new("\\id GEN\n\\c 1\n\\p\n\\v 1 \\bd a\n\\c 2\n\\p\n\\v 1 \\it b\n");
    let starts: Vec<_> = session.diagnostics(&marker_table()).expect("every chunk fits").iter().map(|d| d.span.start).collect();
    assert!(starts.windows(2).all(|w| w[0] <= w[1]), "{starts:?}");
}

/// The context at the position `@` marks, which stands where the `\` is.
fn context_at(marked: &str) -> Context {
    let at = marked.find('@').expect("mark the position with @");
    Session::new(&marked.replace('@', "")).completion_context(at)
}

#[test]
fn a_backslash_at_the_start_of_a_line_is_line_initial() {
    let context = context_at(SRC_LINE_START);
    assert!(context.line_initial);
    assert_eq!(context.inside, None);
}

#[test]
fn indentation_does_not_stop_a_marker_being_line_initial() {
    // Leading whitespace before a marker occurs in hand-edited files, and the
    // marker is still the first thing on the line.
    assert!(context_at(SRC_INDENTED).line_initial);
}

#[test]
fn a_backslash_after_text_is_not_line_initial() {
    assert!(!context_at(SRC_MID_LINE).line_initial);
}

#[test]
fn a_position_inside_a_character_marker_reports_it() {
    // What decides whether the completion needs the `+` nesting prefix.
    assert_eq!(context_at(SRC_INSIDE_BD).inside.as_deref(), Some("bd"));
}

#[test]
fn a_position_outside_every_character_marker_reports_none() {
    assert_eq!(context_at(SRC_AFTER_BD).inside, None);
}

#[test]
fn the_innermost_marker_wins() {
    assert_eq!(context_at(SRC_NESTED).inside.as_deref(), Some("it"));
}

// Raw strings, so the markers read as they do in a file. `@` stands where the
// backslash being completed is.
const SRC_LINE_START: &str = r"\id GEN
\c 1
@\p
\v 1 a
";
const SRC_INDENTED: &str = r"\id GEN
\c 1
\p
   @\q1 a
";
const SRC_MID_LINE: &str = r"\id GEN
\c 1
\p
\v 1 some text @\bd
";
const SRC_INSIDE_BD: &str = r"\id GEN
\c 1
\p
\v 1 \bd bold @\bd*
";
const SRC_AFTER_BD: &str = r"\id GEN
\c 1
\p
\v 1 \bd bold\bd* plain @
";
const SRC_NESTED: &str = r"\id GEN
\c 1
\p
\v 1 \bd b \+it i @\+it*\bd*
";

