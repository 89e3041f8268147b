use usfm_core::checksum;

#[test]
fn the_empty_document_hashes_to_the_offset_basis() {
    assert_eq!(checksum(""), 2_166_136_261);
}

#[test]
fn different_text_hashes_differently() {
    assert_ne!(checksum("\\v 1 a"), checksum("\\v 1 b"));
    assert_ne!(checksum("ab"), checksum("ba"));
}

#[test]
fn it_counts_utf16_units_not_bytes() {
    let astral = "\u{1D400}";
    assert_eq!(astral.encode_utf16().count(), 2);
    assert_eq!(astral.len(), 4);
    assert_ne!(checksum(astral), checksum("\u{FFFD}\u{FFFD}"));
}

const VECTORS: &[(&str, u32)] = &[
    ("", 0x811C_9DC5),
    ("a", 0xE40C_292C),
    ("\\id GEN\n", 0x8D05_171E),
    ("க்ஷேமம்", 0xCBC8_4650),
    ("\u{1D400}", 0x9ADB_D370),
    ("\\v 1 שלום\r\n", 0x4C49_3CE0),
];

#[test]
fn agrees_with_the_typescript_implementation() {
    for (text, expected) in VECTORS {
        assert_eq!(checksum(text), *expected, "{text:?} disagrees with the interface's checksum");
    }
}
