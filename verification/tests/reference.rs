use usfm_core::reference::{reference_at, resolve, resolve_with};
use usfm_core::{decimal_value, parse_digits, ByteSpan, Node, NodeKind, Reference, Resolution, VerseIndex};

#[test]
fn ascii_digits_read_as_themselves() {
    assert_eq!(parse_digits("0"), Some(0));
    assert_eq!(parse_digits("150"), Some(150));
    assert_eq!(parse_digits(""), None);
    assert_eq!(parse_digits("1a"), None);
}

#[test]
fn every_script_works_without_being_enumerated() {
    assert_eq!(parse_digits("\u{BE9}"), Some(3));
    assert_eq!(parse_digits("\u{966}\u{967}"), Some(1));
    assert_eq!(parse_digits("\u{6F3}"), Some(3));
    assert_eq!(parse_digits("\u{FF11}\u{FF10}"), Some(10));
    assert_eq!(parse_digits("\u{1041}"), Some(1));
}

#[test]
fn a_numeral_that_is_not_a_digit_is_refused() {
    assert_eq!(parse_digits("\u{BF0}"), None);
    assert_eq!(parse_digits("\u{2160}"), None);
    assert_eq!(parse_digits("\u{00BD}"), None);
}

#[test]
fn a_number_too_large_for_a_chapter_is_refused_rather_than_wrapped() {
    assert_eq!(parse_digits("99999"), None);
    assert_eq!(parse_digits("65536"), None);
    assert_eq!(parse_digits("65535"), Some(65535));
}

#[test]
fn the_accepted_forms_parse() {
    let full = Reference::parse("GEN 1:1").expect("book chapter verse");
    assert_eq!(full.book.as_deref(), Some("GEN"));
    assert_eq!((full.chapter, full.verse), (1, Some(1)));

    let dotted = Reference::parse("Gen 1.1").expect("dot form");
    assert_eq!(dotted.book.as_deref(), Some("GEN"));
    assert_eq!((dotted.chapter, dotted.verse), (1, Some(1)));

    let bare = Reference::parse("1:1").expect("chapter and verse");
    assert_eq!(bare.book, None);
    assert_eq!((bare.chapter, bare.verse), (1, Some(1)));

    let chapter = Reference::parse("3").expect("a chapter");
    assert_eq!((chapter.chapter, chapter.verse), (3, None));
}

#[test]
fn a_book_code_may_begin_with_a_digit() {
    for code in ["1CO", "2SA", "3JN"] {
        let reference = Reference::parse(&format!("{code} 2:3")).expect("a numbered book code");
        assert_eq!(reference.book.as_deref(), Some(code));
        assert_eq!((reference.chapter, reference.verse), (2, Some(3)));
    }
}

#[test]
fn a_reference_in_another_script_reads_the_same_as_in_ascii() {
    let tamil = Reference::parse("\u{BE9}:\u{BE7}").expect("௩:௧");
    let ascii = Reference::parse("3:1").expect("3:1");
    assert_eq!((tamil.chapter, tamil.verse), (ascii.chapter, ascii.verse));
}

#[test]
fn a_half_typed_reference_means_the_chapter() {
    let partial = Reference::parse("2:").expect("mid-typing");
    assert_eq!((partial.chapter, partial.verse), (2, None));
    assert_eq!(partial.verse_text, None);
}

#[test]
fn nonsense_is_refused() {
    assert_eq!(Reference::parse(""), None);
    assert_eq!(Reference::parse("   "), None);
    assert_eq!(Reference::parse("GEN x:1"), None);
}

#[test]
fn a_bare_book_code_means_its_first_chapter() {
    let book = Reference::parse("gen").expect("a book on its own");
    assert_eq!(book.book.as_deref(), Some("GEN"));
    assert_eq!((book.chapter, book.verse), (1, None));
}

#[test]
fn the_ascii_digit_values_are_their_own() {
    assert_eq!(decimal_value('7'), Some(7));
    assert_eq!(decimal_value('x'), None);
    assert_eq!(decimal_value('\u{BEF}'), Some(9));
}

/// A verse node with a number, a span, and any published number.
fn verse(number: &str, published: Option<&str>, start: usize) -> Node {
    let mut node = Node::new(NodeKind::Verse);
    node.attributes.push(usfm_core::Attribute::new("number", number));
    if let Some(p) = published {
        node.attributes.push(usfm_core::Attribute::new("pubnumber", p));
    }
    node.span = Some(ByteSpan::new(start, start + 3));
    node
}

fn chapter(number: &str, start: usize) -> Node {
    let mut node = Node::new(NodeKind::Chapter);
    node.attributes.push(usfm_core::Attribute::new("number", number));
    node.span = Some(ByteSpan::new(start, start + 4));
    node
}

fn tamil_index() -> VerseIndex {
    let mut para = Node::new(NodeKind::Para);
    para.children.push(verse("1", Some("\u{BE7}"), 10));
    para.children.push(verse("2", Some("\u{BE8}"), 20));
    para.children.push(verse("3", None, 30));
    VerseIndex::build(&[chapter("1", 0), para])
}

#[test]
fn a_verse_resolves_by_number_then_by_what_is_printed() {
    let index = tamil_index();
    let by_number = Reference::parse("1:2").unwrap();
    assert_eq!(resolve_with(&by_number, &index, Some("GEN"), Some(ByteSpan::new(0, 4))), Resolution::Found(ByteSpan::new(20, 23)));
    let by_print = Reference::parse("1:\u{BE7}").unwrap();
    assert_eq!(resolve_with(&by_print, &index, None, Some(ByteSpan::new(0, 4))), Resolution::Found(ByteSpan::new(10, 13)));
}

#[test]
fn what_is_missing_is_said() {
    let index = tamil_index();
    let other_book = Reference::parse("EXO 1:1").unwrap();
    assert_eq!(
        resolve_with(&other_book, &index, Some("gen"), None),
        Resolution::WrongBook { document: Some("gen".to_string()), asked: "EXO".to_string() }
    );
    let same_book = Reference::parse("gen 1:1").unwrap();
    assert_eq!(resolve_with(&same_book, &index, Some("GEN"), None), Resolution::Found(ByteSpan::new(10, 13)));
    let no_verse = Reference::parse("1:9").unwrap();
    assert_eq!(
        resolve_with(&no_verse, &index, None, Some(ByteSpan::new(0, 4))),
        Resolution::NoSuchVerse { chapter: 1, verse: "9".to_string() }
    );
    let no_chapter = Reference::parse("7").unwrap();
    assert_eq!(resolve(&no_chapter, &index, None, |_| None), Resolution::NoSuchChapter(7));
    assert_eq!(
        resolve(&no_chapter, &index, None, |c| if c == 7 { Some(ByteSpan::new(40, 44)) } else { None }),
        Resolution::Found(ByteSpan::new(40, 44))
    );
}

#[test]
fn a_position_reads_back_as_a_reference() {
    let index = tamil_index();
    assert_eq!(reference_at(&index, Some("GEN"), 15, Some(1)).as_deref(), Some("GEN 1:\u{BE7}"));
    assert_eq!(reference_at(&index, None, 35, None).as_deref(), Some("1:3"));
    assert_eq!(reference_at(&index, Some("GEN"), 35, Some(2)).as_deref(), Some("GEN 2"));
    assert_eq!(reference_at(&index, None, 5, None), None);
    assert_eq!(reference_at(&index, None, 5, Some(1)).as_deref(), Some("1"));
}

#[test]
fn a_decimal_digit_of_any_script_has_its_value() {
    assert_eq!(decimal_value('7'), Some(7));
    assert_eq!(decimal_value('\u{BE9}'), Some(3));
    assert_eq!(decimal_value('\u{6F3}'), Some(3));
    assert_eq!(decimal_value('\u{FF11}'), Some(1));
    assert_eq!(decimal_value('\u{1041}'), Some(1));
    assert_eq!(decimal_value('\u{1D7CE}'), Some(0));
    assert_eq!(decimal_value('\u{1D7D8}'), Some(0));
    assert_eq!(decimal_value('\u{1D7E5}'), Some(3));
    assert_eq!(decimal_value('\u{1D7FF}'), Some(9));
    assert_eq!(decimal_value('\u{BF0}'), None);
    assert_eq!(decimal_value('\u{2160}'), None);
    assert_eq!(decimal_value('\u{BD}'), None);
    assert_eq!(decimal_value('a'), None);
}
