use usfm_core::{Char16, Utf16Mapper};

#[test]
fn ascii_offsets_are_unchanged() {
    let source = "\\id GEN\n\\c 1\n";
    let mapper = Utf16Mapper::new(source);
    for byte in 0..=source.len() {
        assert_eq!(mapper.to_char16(source, byte).unwrap().get(), byte as u32);
    }
}

#[test]
fn a_multibyte_character_counts_as_one_unit() {
    let source = "க";
    let mapper = Utf16Mapper::new(source);
    assert_eq!(mapper.to_char16(source, 0).unwrap().get(), 0);
    assert_eq!(mapper.to_char16(source, 3).unwrap().get(), 1);
}

#[test]
fn an_astral_character_counts_as_two_units() {
    let source = "\u{1D400}";
    let mapper = Utf16Mapper::new(source);
    assert_eq!(mapper.to_char16(source, 0).unwrap().get(), 0);
    assert_eq!(mapper.to_char16(source, 4).unwrap().get(), 2);
}

#[test]
fn an_offset_inside_a_surrogate_pair_has_no_byte_offset() {
    let source = "\u{1D400}";
    let mapper = Utf16Mapper::new(source);
    assert_eq!(mapper.to_byte(source, Char16::from_editor(0)), Some(0));
    assert_eq!(mapper.to_byte(source, Char16::from_editor(1)), None);
    assert_eq!(mapper.to_byte(source, Char16::from_editor(2)), Some(4));
}

#[test]
fn a_byte_inside_a_character_rounds_down_to_its_start() {
    let source = "கb";
    let mapper = Utf16Mapper::new(source);
    for byte in 0..3 {
        assert_eq!(mapper.to_char16(source, byte).unwrap().get(), 0, "{byte}");
    }
    assert_eq!(mapper.to_char16(source, 3).unwrap().get(), 1);
}

#[test]
fn char16_a_byte_past_the_end_clamps_rather_than_panicking() {
    let source = "abc";
    let mapper = Utf16Mapper::new(source);
    assert_eq!(mapper.to_char16(source, 9_999).unwrap().get(), 3);
}

#[test]
fn char16_the_wrong_source_is_refused_rather_than_answered() {
    let mapper = Utf16Mapper::new("\\c 1\n\\v 1 text\n");
    assert_eq!(mapper.to_char16("something else entirely", 3), None);
}

#[test]
fn a_byte_offset_reports_the_line_it_falls_on() {
    let source = "\\id GEN\n\\v 1 க்ஷேமம்\n\\v 2 x\n";
    let mapper = Utf16Mapper::new(source);

    assert_eq!(mapper.line(source, 0), Some(1));
    assert_eq!(mapper.line(source, 7), Some(1));
    assert_eq!(mapper.line(source, 8), Some(2));
    assert_eq!(mapper.line(source, 20), Some(2));
    assert_eq!(mapper.line(source, source.find("\\v 2").unwrap()), Some(3));
    assert_eq!(mapper.line(source, source.len()), Some(4));
}

#[test]
fn a_line_past_the_end_clamps_rather_than_panicking() {
    let mapper = Utf16Mapper::new("abc\n");
    assert_eq!(Utf16Mapper::new("abc\n").line("abc\n", 9_999), Some(2));
    assert_eq!(mapper.line("something else", 0), None);
}

#[test]
fn offsets_are_indexed_per_line() {
    let source = "க\nb\nc\n";
    let mapper = Utf16Mapper::new(source);
    assert_eq!(mapper.line_count(), 4);
    assert_eq!(mapper.to_char16(source, 4).unwrap().get(), 2);
}

#[test]
fn the_document_length_is_counted_in_utf16_units() {
    let source = "a\u{1D400}க";
    let mapper = Utf16Mapper::new(source);
    assert_eq!(mapper.len_char16().get(), 4);
}

#[test]
fn a_byte_range_becomes_a_utf16_range() {
    let source = "கa\u{1D400}";
    let mapper = Utf16Mapper::new(source);
    let range = mapper
        .to_char16_range(source, &usfm_core::ByteSpan::new(3, 8))
        .expect("same source");
    assert_eq!((range.start.get(), range.end.get()), (1, 4));
    assert_eq!(range.len(), 3);
}

#[test]
fn every_boundary_converts_to_utf16_and_back() {
    let source = "\\v 1 க\u{1D400}é\n\\v 2 x";
    let mapper = Utf16Mapper::new(source);
    for byte in (0..=source.len()).filter(|b| source.is_char_boundary(*b)) {
        let unit = mapper.to_char16(source, byte).unwrap();
        assert_eq!(mapper.to_byte(source, unit), Some(byte));
    }
}
