use usfm_core::token::classify;
use usfm_core::TokenKind;

#[test]
fn the_lexers_vocabulary_maps_onto_ours() {
    assert_eq!(classify("marker", Some("regular")), TokenKind::Marker);
    assert_eq!(classify("marker", Some("nested")), TokenKind::Marker);
    assert_eq!(classify("closing_marker", Some("regular")), TokenKind::ClosingMarker);
    assert_eq!(classify("milestone_end", None), TokenKind::Milestone);
    assert_eq!(classify("attributes", None), TokenKind::Attributes);
}

#[test]
fn chapter_and_verse_are_read_from_the_specific_kind() {
    assert_eq!(classify("marker", Some("chapter")), TokenKind::Chapter);
    assert_eq!(classify("marker", Some("verse")), TokenKind::Verse);
    assert_eq!(classify("marker", Some("milestone")), TokenKind::Milestone);
}

#[test]
fn anything_unrecognised_reads_as_prose() {
    assert_eq!(classify("whitespace", None), TokenKind::Text);
    assert_eq!(classify("something-new-upstream", None), TokenKind::Text);
}

#[test]
fn every_marker_run_is_isolated_and_text_is_not() {
    for kind in [
        TokenKind::Marker,
        TokenKind::ClosingMarker,
        TokenKind::Chapter,
        TokenKind::Verse,
        TokenKind::Milestone,
        TokenKind::Attributes,
    ] {
        assert!(kind.needs_bidi_isolation(), "{kind:?}");
    }
    assert!(!TokenKind::Text.needs_bidi_isolation());
}
