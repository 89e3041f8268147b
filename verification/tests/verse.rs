use usfm_core::verse::non_ascii_digits;
use usfm_core::{Attribute, ByteSpan, DiagnosticCode, Node, NodeKind, Severity, VerseId, VerseIndex};
use usfm_core::parsed::Document;

#[test]
fn a_plain_number_is_a_range_of_one() {
    assert_eq!(VerseId::parse("1"), Some(VerseId::single(1)));
    assert_eq!(VerseId::parse("12"), Some(VerseId::single(12)));
}

#[test]
fn a_range_keeps_both_ends() {
    let range = VerseId::parse("1-2").expect("a range");
    assert_eq!((range.start, range.end), (1, 2));
    assert!(range.contains(1) && range.contains(2));
    assert!(!range.contains(3));
}

#[test]
fn a_segment_letter_is_kept() {
    let segment = VerseId::parse("1a").expect("a segment");
    assert_eq!(segment.start, 1);
    assert_eq!(segment.segment, Some('a'));
    assert_eq!(VerseId::parse("1-2a").map(|v| v.segment), Some(Some('a')));
}

#[test]
fn a_segment_letter_may_be_greek() {
    let segment = VerseId::parse("18\u{3b1}").expect("a Greek segment");
    assert_eq!(segment.start, 18);
    assert_eq!(segment.segment, Some('\u{3b1}'));
}

#[test]
fn different_segments_never_collide() {
    let a = VerseId::parse("1a").unwrap();
    let b = VerseId::parse("1b").unwrap();
    assert!(!a.overlaps(&b));

    let plain = VerseId::single(22);
    let alpha = VerseId::parse("22\u{3b1}").unwrap();
    assert!(!plain.overlaps(&alpha));

    assert!(alpha.overlaps(&VerseId::parse("22\u{3b1}").unwrap()));
}

#[test]
fn malformed_numbers_are_refused_rather_than_coerced() {
    assert_eq!(VerseId::parse(""), None);
    assert_eq!(VerseId::parse("abc"), None);
    assert_eq!(VerseId::parse("-1"), None);
    assert_eq!(VerseId::parse("5-2"), None);
    assert_eq!(VerseId::parse("௩"), None);
}

#[test]
fn a_verse_number_is_written_back_as_it_was_read() {
    assert_eq!(VerseId::parse(" 1 - 2a ").unwrap().to_string(), "1-2a");
    assert_eq!(VerseId::single(7).to_string(), "7");
    assert!(non_ascii_digits("\u{BE9}"));
    assert!(!non_ascii_digits("12"));
}

fn verse(number: &str, start: usize) -> Node {
    let mut node = Node::new(NodeKind::Verse);
    node.attributes.push(Attribute::new("number", number));
    node.span = Some(ByteSpan::new(start, start + 2));
    node
}

fn chapter(number: &str) -> Node {
    let mut node = Node::new(NodeKind::Chapter);
    node.attributes.push(Attribute::new("number", number));
    node
}

/// Chapters and the verses under them, each verse at the next ten bytes.
fn index(chapters: &[(&str, &[&str])]) -> VerseIndex {
    let mut roots = Vec::new();
    let mut at = 0;
    for (number, verses) in chapters {
        roots.push(chapter(number));
        let mut para = Node::new(NodeKind::Para);
        for v in *verses {
            at += 10;
            para.children.push(verse(v, at));
        }
        roots.push(para);
    }
    VerseIndex::build(&roots)
}

#[test]
fn the_index_records_chapter_and_verse_in_order() {
    let index = index(&[("1", &["1", "2"]), ("2", &["1"])]);
    let entries = index.entries();
    assert_eq!(entries.len(), 3);
    assert_eq!((entries[0].chapter, entries[0].verse.start), (1, 1));
    assert_eq!((entries[2].chapter, entries[2].verse.start), (2, 1));
    assert!(index.find(2, 1).is_some());
    assert!(index.find(9, 1).is_none());
    assert!(!index.is_empty());
}

#[test]
fn overlaps_gaps_and_bad_numbers_are_reported_in_position_order() {
    let index = index(&[("1", &["1-2", "2", "5", "x"]), ("2", &["1", "\u{BE9}"])]);
    let found = index.diagnostics();
    let summary: Vec<_> = found.iter().map(|d| (d.code, d.span.start, d.message.as_str())).collect();
    assert_eq!(
        summary,
        vec![
            (DiagnosticCode::VerseGap, 10, "chapter 1 has no verse 3"),
            (DiagnosticCode::VerseGap, 10, "chapter 1 has no verse 4"),
            (DiagnosticCode::DuplicateVerse, 20, "1:2 overlaps 1:1-2, which appears earlier"),
            (DiagnosticCode::MissingVerseNumber, 40, "\\v x is not a verse number"),
            (
                DiagnosticCode::NonAsciiVerseDigits,
                60,
                "\\v \u{BE9} uses non-ASCII digits; USFM verse numbers are ASCII, and the published form belongs in \\vp"
            ),
        ]
    );
    assert_eq!(found[0].severity, Severity::Information);
    assert_eq!(found[2].severity, Severity::Error);
}

fn index_of(source: &str) -> VerseIndex {
    let document = Document::parse(source);
    VerseIndex::build(document.content())
}

#[test]
fn the_index_records_chapter_and_verse() {
    let index = index_of("\\id GEN\n\\c 1\n\\p\n\\v 1 a\n\\v 2 b\n\\c 2\n\\p\n\\v 1 c\n");
    let entries = index.entries();

    assert_eq!(entries.len(), 3);
    assert_eq!((entries[0].chapter, entries[0].verse.start), (1, 1));
    assert_eq!((entries[2].chapter, entries[2].verse.start), (2, 1));
    assert!(index.find(2, 1).is_some());
    assert!(index.find(9, 1).is_none());
}

#[test]
fn a_range_is_found_by_either_of_its_numbers() {
    let index = index_of("\\id GEN\n\\c 1\n\\p\n\\v 1-2 both\n\\v 3 c\n");
    assert!(index.find(1, 1).is_some());
    assert!(index.find(1, 2).is_some());
    assert_eq!(index.find(1, 1), index.find(1, 2));
}

#[test]
fn alternate_and_published_numbers_are_kept() {
    let index = index_of("\\id GEN\n\\c 1\n\\p\n\\v 1 \\va 2\\va* \\vp \u{BE9}\\vp* text\n");
    let entry = &index.entries()[0];

    assert_eq!(entry.alternate, Some(VerseId::single(2)));
    assert_eq!(entry.published.as_deref(), Some("\u{BE9}"));
}

#[test]
fn a_range_overlapping_a_separate_verse_is_a_duplicate() {
    let index = index_of("\\id GEN\n\\c 1\n\\p\n\\v 1-2 both\n\\v 2 again\n");
    assert!(index.diagnostics().iter().any(|d| d.code == DiagnosticCode::DuplicateVerse));
}

#[test]
fn a_repeated_verse_is_a_duplicate() {
    let index = index_of("\\id GEN\n\\c 1\n\\p\n\\v 1 a\n\\v 1 b\n");
    assert!(index.diagnostics().iter().any(|d| d.code == DiagnosticCode::DuplicateVerse));
}

#[test]
fn the_same_number_in_different_chapters_is_not_a_duplicate() {
    let index = index_of("\\id GEN\n\\c 1\n\\p\n\\v 1 a\n\\c 2\n\\p\n\\v 1 b\n");
    assert!(!index.diagnostics().iter().any(|d| d.code == DiagnosticCode::DuplicateVerse));
}

#[test]
fn a_missing_verse_is_information_rather_than_a_problem() {
    let index = index_of("\\id GEN\n\\c 1\n\\p\n\\v 1 a\n\\v 3 c\n");
    let gap = index
        .diagnostics()
        .into_iter()
        .find(|d| d.code == DiagnosticCode::VerseGap)
        .expect("the gap at verse 2");

    assert_eq!(gap.severity, Severity::Information);
    assert!(gap.message.contains("verse 2"), "{}", gap.message);
}

#[test]
fn a_range_fills_the_gap_it_covers() {
    let index = index_of("\\id GEN\n\\c 1\n\\p\n\\v 1-3 all\n\\v 4 d\n");
    assert!(!index.diagnostics().iter().any(|d| d.code == DiagnosticCode::VerseGap));
}

#[test]
fn non_ascii_verse_digits_are_an_error() {
    let index = index_of("\\id GEN\n\\c 1\n\\p\n\\v \u{BE9} text\n");
    let found = index
        .diagnostics()
        .into_iter()
        .find(|d| d.code == DiagnosticCode::NonAsciiVerseDigits);

    assert!(found.is_some(), "non-ASCII \\v number went unreported");
    assert_eq!(found.unwrap().severity, Severity::Error);
}
