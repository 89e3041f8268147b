use usfm_core::ByteSpan;

#[test]
fn slice_returns_the_covered_text() {
    let source = "\\id GEN\n";
    assert_eq!(ByteSpan::new(0, 3).slice(source), Some("\\id"));
    assert_eq!(ByteSpan::new(4, 7).slice(source), Some("GEN"));
}

#[test]
fn out_of_bounds_slice_is_none_rather_than_a_panic() {
    assert_eq!(ByteSpan::new(0, 99).slice("short"), None);
}

#[test]
fn slice_off_a_character_boundary_is_none_rather_than_a_panic() {
    let source = "कि";
    assert_eq!(ByteSpan::new(0, 1).slice(source), None);
    assert_eq!(ByteSpan::new(0, 3).slice(source), Some("क"));
}

#[test]
fn empty_and_reversed_spans_do_not_underflow() {
    assert!(ByteSpan::new(5, 5).is_empty());
    assert_eq!(ByteSpan::new(9, 4).len(), 0);
}

#[test]
fn a_span_contains_its_start_and_not_its_end() {
    let span = ByteSpan::new(2, 5);
    assert!(span.contains(2));
    assert!(span.contains(4));
    assert!(!span.contains(5));
    assert_eq!(span.len(), 3);
}
