use usfm_core::NormalizedIndex;

const NFC: &str = "caf\u{e9}";
const NFD: &str = "cafe\u{301}";

#[test]
fn the_two_spellings_really_do_differ_in_bytes() {
    assert_ne!(NFC.as_bytes(), NFD.as_bytes());
    assert_eq!(NFC.chars().count(), 4);
    assert_eq!(NFD.chars().count(), 5);
}

#[test]
fn normalize_an_nfc_query_finds_nfd_text() {
    let index = NormalizedIndex::build(NFD);
    let hits = index.find(NFC);

    assert_eq!(hits.len(), 1, "NFC query found no NFD text");
    assert_eq!(hits[0].slice(NFD), Some(NFD));
}

#[test]
fn normalize_an_nfd_query_finds_nfc_text() {
    let index = NormalizedIndex::build(NFC);
    let hits = index.find(NFD);

    assert_eq!(hits.len(), 1);
    assert_eq!(hits[0].slice(NFC), Some(NFC));
}

#[test]
fn the_raw_text_is_never_altered() {
    let index = NormalizedIndex::build(NFD);
    assert_ne!(index.text(), NFD);
    assert_eq!(index.text(), NFC);
}

#[test]
fn matches_report_raw_offsets() {
    let source = "\\v 1 cafe\u{301} and more cafe\u{301}\n";
    let index = NormalizedIndex::build(source);
    let hits = index.find("caf\u{e9}");

    assert_eq!(hits.len(), 2);
    for hit in hits {
        assert_eq!(hit.slice(source), Some("cafe\u{301}"));
    }
}

#[test]
fn a_mixed_document_is_reported_and_a_clean_one_is_not() {
    assert!(!NormalizedIndex::build(NFD).is_normalized());
    assert!(NormalizedIndex::build(NFC).is_normalized());
    assert!(NormalizedIndex::build("plain ascii").is_normalized());
}

#[test]
fn complex_scripts_survive_the_round_trip() {
    for source in ["क्षि", "க்ஷேமம்", "בְּרֵאשִׁית", "مرحبا", "\u{1D400}", "e\u{301}q\u{323}\u{307}"] {
        let index = NormalizedIndex::build(source);
        let hits = index.find(source);
        assert_eq!(hits.len(), 1, "{source:?} did not find itself");
        assert_eq!(hits[0].slice(source), Some(source), "{source:?}");
    }
}

#[test]
fn every_segment_maps_back_inside_the_source() {
    let source = "\\v 1 cafe\u{301} க்ஷ שלום \u{1D400}\n";
    let index = NormalizedIndex::build(source);

    for offset in 0..index.text().len() {
        if !index.text().is_char_boundary(offset) {
            continue;
        }
        let raw = index.raw_offset(offset).expect("a mapping");
        assert!(raw <= source.len());
        assert!(source.is_char_boundary(raw), "raw offset {raw} is mid-character");
    }
}

#[test]
fn normalize_an_empty_query_matches_nothing() {
    assert!(NormalizedIndex::build("text").find("").is_empty());
}

#[test]
fn an_empty_source_is_handled() {
    let index = NormalizedIndex::build("");
    assert!(index.find("anything").is_empty());
    assert!(index.is_normalized());
}

#[test]
fn overlapping_occurrences_are_counted_once() {
    let index = NormalizedIndex::build("aaaa");
    assert_eq!(index.find("aa").len(), 2);
    let copy = index.clone();
    assert_eq!(copy.text(), "aaaa");
}
