use usfm_core::backend::diagnostics::convert_code;
use usfm_core::backend::upstream::numbers_fit_in;
use usfm_core::parsed::Document;
use usfm_core::{DiagnosticCode, NodeKind, Severity};

#[test]
fn a_book_parses_into_book_chapter_and_paragraph() {
    let source = "\\id GEN\n\\c 1\n\\p\n\\v 1 In the beginning\n";
    let doc = Document::parse(source);
    assert_eq!(doc.source(), source);
    let content = doc.content();
    let kinds: Vec<NodeKind> = content.iter().map(|n| n.kind).filter(|k| *k != NodeKind::Text).collect();
    assert_eq!(kinds, vec![NodeKind::Book, NodeKind::Chapter, NodeKind::Para], "{content:?}");
    let chapter = content.iter().find(|n| n.kind == NodeKind::Chapter).unwrap();
    assert_eq!(chapter.attribute("number"), Some("1"));
    let para = content.iter().find(|n| n.kind == NodeKind::Para).unwrap();
    assert_eq!(para.marker.as_ref().map(|m| m.as_str()), Some("p"));
    let verse = para.children.iter().find(|n| n.kind == NodeKind::Verse).unwrap();
    assert_eq!(verse.attribute("number"), Some("1"));
    let text: String = para.children.iter().filter_map(|c| c.text.clone()).collect();
    assert!(text.contains("In the beginning"), "{text:?}");
    assert!(doc.diagnostics().is_empty(), "{:?}", doc.diagnostics());
}

#[test]
fn a_bold_span_and_a_note_sit_inside_their_paragraph() {
    let doc = Document::parse("\\id GEN\n\\c 1\n\\p\n\\v 1 a \\bd bold\\bd* b\\f + \\ft note\\f*\n");
    let para = doc.content().iter().find(|n| n.kind == NodeKind::Para).unwrap();
    let kinds: Vec<NodeKind> = para.children.iter().map(|n| n.kind).collect();
    assert!(kinds.contains(&NodeKind::Char), "{kinds:?}");
    assert!(kinds.contains(&NodeKind::Note), "{kinds:?}");
    let bd = para.children.iter().find(|n| n.kind == NodeKind::Char).unwrap();
    assert_eq!(bd.marker.as_ref().map(|m| m.as_str()), Some("bd"));
    let span = bd.span.clone().unwrap();
    assert!(span.start < span.end);
}

#[test]
fn an_unknown_marker_is_reported() {
    let doc = Document::parse("\\id GEN\n\\c 1\n\\p\n\\v 1 a \\xyz b\n");
    assert!(doc.diagnostics().iter().any(|d| d.code == DiagnosticCode::UnknownMarker), "{:?}", doc.diagnostics());
    let starts: Vec<usize> = doc.diagnostics().iter().map(|d| d.span.start).collect();
    let mut sorted = starts.clone();
    sorted.sort();
    assert_eq!(starts, sorted);
}

#[test]
fn the_parsers_codes_map_onto_ours() {
    assert_eq!(convert_code(0), Some(DiagnosticCode::UnknownMarker));
    assert_eq!(convert_code(3), Some(DiagnosticCode::UnknownMarker));
    assert_eq!(convert_code(10), Some(DiagnosticCode::DuplicateChapter));
    assert_eq!(convert_code(33), None);
    assert_eq!(convert_code(37), Some(DiagnosticCode::HeaderAfterBody));
    assert_eq!(convert_code(200), None);
}

#[test]
fn numbers_too_large_for_the_checks_are_told_apart() {
    assert!(numbers_fit_in("\\c 4294967294\n"));
    assert!(!numbers_fit_in("\\c 4294967295\n"));
    assert!(!numbers_fit_in("\\v 1 text 99999999999999999999"));
    assert!(numbers_fit_in("\\v 1 a\u{1D400}12 34"));
}

#[test]
fn a_text_with_a_huge_chapter_number_keeps_its_tree_without_diagnostics() {
    let document = Document::parse("\\c 99999999999999999999\n");
    assert!(document.diagnostics().is_empty());
    assert!(!document.content().is_empty());
}

const GENESIS: &str = "\\id GEN Genesis
\\c 1
\\p
\\v 1 In the beginning God created the heaven and the earth.
\\v 2 And the earth was without form, and void.
";

#[test]
fn the_source_is_returned_exactly_as_given() {
    // ADR-003. Anything else here and byte fidelity is already lost before
    // the editor has been written.
    let document = Document::parse(GENESIS);
    assert_eq!(document.source(), GENESIS);
}

#[test]
fn structure_is_recognized() {
    let document = Document::parse(GENESIS);
    let kinds: Vec<_> = document.descendants().into_iter().map(|node| node.kind).collect();

    assert!(kinds.contains(&NodeKind::Book));
    assert!(kinds.contains(&NodeKind::Chapter));
    assert!(kinds.contains(&NodeKind::Para));
    assert!(kinds.contains(&NodeKind::Verse));
    assert!(kinds.contains(&NodeKind::Text));
}

#[test]
fn chapters_and_verses_carry_their_numbers() {
    let document = Document::parse(GENESIS);

    let verses: Vec<_> = document
        .descendants()
        .into_iter()
        .filter(|node| node.kind == NodeKind::Verse)
        .filter_map(|node| node.attribute("number"))
        .collect();

    assert_eq!(verses, vec!["1", "2"]);

    let chapter = document
        .descendants()
        .into_iter()
        .find(|node| node.kind == NodeKind::Chapter)
        .expect("a chapter");

    assert_eq!(chapter.attribute("number"), Some("1"));
    assert_eq!(chapter.marker.as_ref().map(|m| m.as_str()), Some("c"));
}

#[test]
fn spans_slice_back_to_the_source_they_describe() {
    // The property that matters. A span that does not slice back to its own
    // text puts the cursor in the wrong place, and every feature connecting
    // preview to source inherits the error.
    let document = Document::parse(GENESIS);

    let chapter = document
        .descendants()
        .into_iter()
        .find(|node| node.kind == NodeKind::Chapter)
        .expect("a chapter");

    let span = chapter.span.as_ref().expect("chapter has a span");
    let text = span.slice(document.source()).expect("span is sliceable");

    assert!(text.starts_with("\\c"), "chapter span covers {text:?}");
}

#[test]
fn every_span_is_in_bounds_and_on_a_character_boundary() {
    // Asserted over text where the three coordinate spaces disagree, because
    // on ASCII they agree and the bug hides. Tamil conjuncts, a Devanagari
    // reordered vowel sign, Hebrew, Arabic, a combining mark, and an astral
    // character.
    let source = "\\id GEN
\\c 1
\\p
\\v 1 க்ஷேமம் क्षि שלום مرحبا e\u{0301} \u{1D400}
\\v 2 \\nd LORD\\nd* \\f + \\ft note\\f*
";

    let document = Document::parse(source);
    let mut spans_seen = 0;

    for node in document.descendants() {
        let Some(span) = node.span.as_ref() else {
            continue;
        };
        spans_seen += 1;

        assert!(
            span.end <= source.len(),
            "{:?} span {span:?} runs past the end of {} bytes",
            node.kind,
            source.len()
        );
        assert!(
            span.slice(source).is_some(),
            "{:?} span {span:?} does not fall on character boundaries",
            node.kind
        );
    }

    assert!(spans_seen > 0, "no spans were checked");
}

#[test]
fn text_survives_in_a_script_that_is_not_latin() {
    let source = "\\id GEN\n\\c 1\n\\p\n\\v 1 க்ஷேமம்\n";
    let document = Document::parse(source);

    let text: String = document
        .descendants()
        .into_iter()
        .filter(|node| node.kind == NodeKind::Text)
        .filter_map(|node| node.text.as_deref())
        .collect();

    assert!(text.contains("க்ஷேமம்"), "got {text:?}");
}

#[test]
fn character_markers_and_notes_nest() {
    let source = "\\id GEN\n\\c 1\n\\p\n\\v 1 \\nd LORD\\nd* said \\f + \\ft a note\\f*\n";
    let document = Document::parse(source);

    let note = document
        .descendants()
        .into_iter()
        .find(|node| node.kind == NodeKind::Note)
        .expect("a note");

    assert_eq!(note.marker.as_ref().map(|m| m.as_str()), Some("f"));
    assert!(!note.children.is_empty(), "the note has content");

    assert!(document
        .descendants()
        .into_iter()
        .any(|node| node.kind == NodeKind::Char
            && node.marker.as_ref().is_some_and(|m| m.as_str() == "nd")));
}

#[test]
fn custom_z_markers_are_carried_rather_than_dropped() {
    // unfoldingWord's alignment data is \zaln-s throughout. ADR-003: content
    // we do not understand still has to survive.
    let source = "\\id GEN\n\\c 1\n\\p\n\\v 1 \\zaln-s |x-lemma=\"אֱלֹהִים\"\\*God\\zaln-e\\*\n";
    let document = Document::parse(source);

    assert!(
        document.descendants().into_iter().any(|node| node
            .marker
            .as_ref()
            .is_some_and(|marker| marker.as_str().starts_with("zaln"))),
        "no zaln marker survived"
    );
}

#[test]
fn malformed_input_produces_diagnostics_rather_than_nothing() {
    // \bd is never closed.
    let document = Document::parse("\\id GEN\n\\c 1\n\\p\n\\v 1 \\bd unclosed\n");

    let diagnostics = document.diagnostics();
    assert!(
        !diagnostics.is_empty(),
        "an unclosed marker went unreported"
    );

    for diagnostic in diagnostics {
        assert!(
            diagnostic.code.as_str().starts_with("USFM-"),
            "{} has no stable code",
            diagnostic.message
        );
        assert!(
            diagnostic.span.slice(document.source()).is_some(),
            "{} points at {:?}, which is not sliceable",
            diagnostic.code.as_str(),
            diagnostic.span
        );
    }
}

#[test]
fn diagnostics_are_reported_in_source_order() {
    let document = Document::parse("\\c 1\n\\p\n\\v 1 \\bd one\n\\v 2 \\it two\n");
    let starts: Vec<_> = document
        .diagnostics()
        .iter()
        .map(|diagnostic| diagnostic.span.start)
        .collect();

    assert!(
        starts.windows(2).all(|pair| pair[0] <= pair[1]),
        "out of order: {starts:?}"
    );
}

#[test]
fn a_missing_book_identification_is_an_error() {
    let document = Document::parse("\\c 1\n\\p\n\\v 1 text\n");

    assert!(
        document
            .diagnostics()
            .iter()
            .any(|diagnostic| diagnostic.severity == Severity::Error),
        "a document with no \\id reported no error: {:?}",
        document.diagnostics()
    );
}

#[test]
fn degenerate_input_does_not_panic() {
    // Not a substitute for the fuzz target (P0.11) — this is the handful of
    // shapes worth failing fast on, so a regression shows up in a unit test
    // run rather than six hours into a fuzzing session.
    let cases = [
        "",
        "\n",
        "\\",
        "\\\\",
        "\\id",
        "plain text with no marker at all",
        "\\c\n\\v\n",
        "\\v 1 \\f + \\f + \\f + \\f + deeply nested\n",
        "\\id GEN\r\n\\c 1\r\n",
        "\u{feff}\\id GEN\n",
        "\\zi\u{200d}d GEN\n",
        "\\c 999999999999999999999\n",
    ];

    for case in cases {
        let document = Document::parse(case);
        let _ = document.content();
        let _ = document.diagnostics();
    }
}

fn first_of<'a>(document: &'a Document, kind: NodeKind) -> &'a usfm_core::Node {
    document.descendants().into_iter().find(|n| n.kind == kind).expect("the node")
}

#[test]
fn numbers_are_kept_as_written_with_their_references() {
    let document = Document::parse("\\id GEN Genesis\n\\c 1\n\\p\n\\v 1-2 both \\v 3a part\n");
    let verses: Vec<_> = document
        .descendants()
        .into_iter()
        .filter(|n| n.kind == NodeKind::Verse)
        .map(|n| (n.attribute("number").unwrap().to_string(), n.attribute("sid").unwrap().to_string()))
        .collect();
    assert_eq!(verses, vec![("1-2".to_string(), "GEN 1:1-2".to_string()), ("3a".to_string(), "GEN 1:3a".to_string())]);
    assert_eq!(first_of(&document, NodeKind::Chapter).attribute("sid"), Some("GEN 1"));
    assert_eq!(first_of(&document, NodeKind::Book).attribute("code"), Some("GEN"));
}

#[test]
fn a_verse_number_in_another_script_is_kept() {
    let document = Document::parse("\\id GEN\n\\c 1\n\\p\n\\v \u{BE9} text\n");
    assert_eq!(first_of(&document, NodeKind::Verse).attribute("number"), Some("\u{BE9}"));
}

#[test]
fn alternate_and_published_numbers_fold_into_their_chapter() {
    let document = Document::parse("\\id GEN\n\\c 1 \\ca 2\\ca*\n\\cp A\n\\p\n\\v 1 text\n");
    let chapter = first_of(&document, NodeKind::Chapter);
    assert_eq!(chapter.attribute("altnumber"), Some("2"));
    assert_eq!(chapter.attribute("pubnumber"), Some("A"));
}

#[test]
fn a_note_names_its_caller_and_a_word_its_lemma() {
    let document = Document::parse("\\id GEN\n\\c 1\n\\p\n\\v 1 \\w grace|gracious\\w* \\f + \\ft a note\\f*\n");
    assert_eq!(first_of(&document, NodeKind::Note).attribute("caller"), Some("+"));
    assert_eq!(first_of(&document, NodeKind::Char).attribute("lemma"), Some("gracious"));
}

#[test]
fn a_note_takes_its_category_from_its_cat() {
    let document = Document::parse("\\id GEN\n\\c 1\n\\p\n\\v 1 a\\f + \\cat People\\cat* \\ft a note\\f*\n");
    let note = first_of(&document, NodeKind::Note);
    assert_eq!(note.attribute("caller"), Some("+"));
    assert_eq!(note.attribute("category"), Some("People"));
}
