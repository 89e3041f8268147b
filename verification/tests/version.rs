use usfm_core::Version;

#[test]
fn versions_parse_and_order() {
    assert_eq!(Version::parse("3.1"), Some(Version::v3_1()));
    assert_eq!(Version::parse("3"), Some(Version::v3_0()));
    assert_eq!(Version::parse(" 2.0 "), Some(Version::v2_0()));
    assert_eq!(Version::parse("3.1.2"), Some(Version::v3_1()));
    assert_eq!(Version::parse("nonsense"), None);

    assert!(Version::v2_0() < Version::v3_0());
    assert!(Version::v3_0() < Version::v3_1());
}

#[test]
fn a_declared_version_is_found_in_the_header() {
    assert_eq!(Version::detect("\\id GEN\n\\usfm 3.0\n\\c 1\n"), Some(Version::v3_0()));
}

#[test]
fn a_document_with_no_declaration_is_assumed_rather_than_guessed_newest() {
    assert_eq!(Version::detect("\\id GEN\n\\c 1\n"), None);
    assert_eq!(Version::of("\\id GEN\n\\c 1\n"), Version::assumed());
}

#[test]
fn the_marker_is_not_looked_for_past_the_first_chapter() {
    assert_eq!(Version::detect("\\id GEN\n\\c 1\n\\p\n\\usfm 2.0\n"), None);
}

#[test]
fn markers_that_merely_begin_with_usfm_are_not_declarations() {
    assert_eq!(Version::detect("\\id GEN\n\\usfmx 9.9\n"), None);
}

#[test]
fn a_crlf_header_still_declares_its_version() {
    assert_eq!(Version::detect("\\id GEN\r\n\\usfm 3.1\r\n"), Some(Version::v3_1()));
    assert_eq!(Version::target(), Version::new(3, 1));
    assert_eq!(Version::v1_0(), Version::new(1, 0));
}
