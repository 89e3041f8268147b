use usfm_core::text_span::{locate, Cursor};
use usfm_core::ByteSpan;

#[test]
fn locates_a_run_from_the_cursor() {
    let source = "\\v 1 In the beginning\n";
    assert_eq!(locate(source, 5, "In the beginning"), Some(ByteSpan::new(5, 21)));
}

#[test]
fn takes_the_leading_whitespace_the_run_carries() {
    let source = "\\v 1 In the beginning\n";
    assert_eq!(locate(source, 0, " In the beginning"), Some(ByteSpan::new(4, 21)));
}

#[test]
fn does_not_look_backwards() {
    let source = "\\v 1 God said\n\\v 2 God saw\n";
    assert_eq!(locate(source, 14, "God"), Some(ByteSpan::new(19, 22)));
}

#[test]
fn a_line_break_inside_a_verse_reads_as_a_space() {
    let source = "\\v 1 God said\nlet there be light\n";
    let span = locate(source, 5, "God said let there be light").expect("the run is there");
    assert_eq!(span, ByteSpan::new(5, 32));
    assert_eq!(span.slice(source), Some("God said\nlet there be light"));
}

#[test]
fn one_whitespace_character_never_stands_for_two() {
    assert_eq!(locate("\\v 1 God  said\n", 5, "God said"), None);
}

#[test]
fn declines_an_empty_run() {
    assert_eq!(locate("\\p\n", 0, ""), None);
}

#[test]
fn declines_a_run_of_only_whitespace() {
    assert_eq!(locate("\\p \n", 0, " "), None);
}

#[test]
fn declines_text_that_is_not_there() {
    assert_eq!(locate("\\v 1 one two\n", 0, "one three"), None);
}

#[test]
fn declines_a_cursor_past_the_end() {
    assert_eq!(locate("\\p\n", 99, "p"), None);
}

#[test]
fn skips_a_false_start_and_finds_the_real_one() {
    let source = "\\v 1 God\n\\v 2 God said\n";
    assert_eq!(locate(source, 0, "God said"), Some(ByteSpan::new(14, 22)));
}

#[test]
fn spans_are_bytes_not_characters() {
    let source = "\\v 1 அப்பா\n";
    let span = locate(source, 0, "அப்பா").expect("the run is there");
    assert_eq!(span.slice(source), Some("அப்பா"));
    assert_eq!(span.len(), "அப்பா".len());
    assert!(span.len() > "அப்பா".chars().count());
}

#[test]
fn a_conjunct_is_matched_whole() {
    let source = "\\v 1 லட்சுமி வந்தார்\n";
    let span = locate(source, 5, "லட்சுமி").expect("the run is there");
    assert_eq!(span.slice(source), Some("லட்சுமி"));
}

#[test]
fn a_cursor_walks_runs_in_order() {
    let source = "\\v 1 God said\n\\v 2 God saw\n";
    let mut cursor = Cursor::new(0);

    cursor.leave(&ByteSpan::new(0, 5));
    assert_eq!(cursor.take(source, "God said "), Some(ByteSpan::new(5, 14)));

    cursor.leave(&ByteSpan::new(14, 19));
    assert_eq!(cursor.take(source, "God saw\n"), Some(ByteSpan::new(19, 27)));
}

#[test]
fn a_cursor_never_goes_backwards() {
    let mut cursor = Cursor::new(50);
    cursor.enter(&ByteSpan::new(10, 20));
    cursor.leave(&ByteSpan::new(10, 20));

    let source = "x".repeat(60);
    assert_eq!(cursor.take(&source, &"x".repeat(20)), None);
}

#[test]
fn a_cursor_inside_a_character_finds_nothing() {
    assert_eq!(locate("க word", 1, "word"), None);
    assert_eq!(locate("க word", 3, "word"), Some(ByteSpan::new(4, 8)));
}
