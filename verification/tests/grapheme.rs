use usfm_core::grapheme::boundaries;

#[test]
fn ascii_boundaries_fall_between_every_character() {
    assert_eq!(boundaries("abc"), vec![0, 1, 2, 3]);
}

#[test]
fn a_devanagari_conjunct_is_one_cluster() {
    let text = "क्ष";
    assert_eq!(text.chars().count(), 3);
    assert_eq!(boundaries(text), vec![0, text.len()]);
}

#[test]
fn a_tamil_conjunct_is_two_clusters_despite_rendering_as_one() {
    let text = "க்ஷ";
    assert_eq!(text.chars().count(), 3);
    assert_eq!(
        boundaries(text),
        vec![0, 6, 9],
        "Tamil conjunct segmentation changed — check the Unicode version"
    );
}

#[test]
fn a_combining_mark_joins_its_base() {
    let text = "e\u{301}";
    assert_eq!(boundaries(text), vec![0, text.len()]);
}

#[test]
fn columns_count_clusters_not_code_points() {
    let line = "क्षa";
    assert_eq!(line.chars().count(), 4);
    assert_eq!(usfm_core::grapheme::column(line, 0), 0);
    assert_eq!(usfm_core::grapheme::column(line, 3), 0);
    assert_eq!(usfm_core::grapheme::column(line, 6), 0);
    assert_eq!(usfm_core::grapheme::column(line, 9), 1);
    assert_eq!(usfm_core::grapheme::column(line, 10), 2);
}

#[test]
fn the_empty_text_has_one_boundary() {
    assert_eq!(boundaries(""), vec![0]);
}
