use usfm_core::lines::{LineCol, LineIndex};

#[test]
fn lines_are_counted_from_one() {
    let index = LineIndex::new("a\nb\nc");
    assert_eq!(index.line(0), 1);
    assert_eq!(index.line(1), 1);
    assert_eq!(index.line(2), 2);
    assert_eq!(index.line(4), 3);
}

#[test]
fn a_trailing_newline_leaves_an_empty_last_line() {
    let index = LineIndex::new("a\n");
    assert_eq!(index.line_count(), 2);
    assert_eq!(index.line(2), 2);
}

#[test]
fn columns_count_clusters_not_bytes() {
    let source = "\\v 1 क्षa\n";
    let index = LineIndex::new(source);

    let at = |byte| index.locate(source, byte).expect("same source");

    assert_eq!(at(0), LineCol { line: 1, column: 1 });
    assert_eq!(at(5), LineCol { line: 1, column: 6 });
    assert_eq!(at(14), LineCol { line: 1, column: 7 });
}

#[test]
fn a_byte_inside_a_cluster_does_not_advance_the_column() {
    let source = "क्षa";
    let index = LineIndex::new(source);
    for byte in 0..9 {
        assert_eq!(index.locate(source, byte).unwrap().column, 1, "{byte}");
    }
    assert_eq!(index.locate(source, 9).unwrap().column, 2);
}

#[test]
fn the_column_restarts_on_each_line() {
    let source = "\\id GEN\n\\v 1 text\n";
    let index = LineIndex::new(source);
    assert_eq!(index.locate(source, 8).unwrap(), LineCol { line: 2, column: 1 });
    assert_eq!(index.locate(source, 10).unwrap(), LineCol { line: 2, column: 3 });
}

#[test]
fn line_text_excludes_the_newline() {
    let source = "\\id GEN\n\\c 1\n";
    let index = LineIndex::new(source);
    assert_eq!(index.line_text(source, 1), Some("\\id GEN"));
    assert_eq!(index.line_text(source, 2), Some("\\c 1"));
    assert_eq!(index.line_text(source, 3), Some(""));
    assert_eq!(index.line_text(source, 4), None);
}

#[test]
fn lines_a_byte_past_the_end_clamps_rather_than_panicking() {
    let source = "abc";
    let index = LineIndex::new(source);
    assert_eq!(index.line(9_999), 1);
    assert_eq!(index.locate(source, 9_999).unwrap().column, 4);
}

#[test]
fn lines_the_wrong_source_is_refused_rather_than_answered() {
    let index = LineIndex::new("\\c 1\n");
    assert_eq!(index.locate("something else entirely", 3), None);
    assert_eq!(index.line_text("something else entirely", 1), None);
}

#[test]
fn it_displays_the_way_a_compiler_would() {
    assert_eq!(LineCol { line: 42, column: 7 }.to_string(), "42:7");
}

#[test]
fn a_line_start_is_where_its_first_byte_is() {
    let index = LineIndex::new("ab\ncd\n");
    assert_eq!(index.line_start(1), Some(0));
    assert_eq!(index.line_start(2), Some(3));
    assert_eq!(index.line_start(3), Some(6));
    assert_eq!(index.line_start(4), None);
}

#[test]
fn a_trailing_newline_is_stripped_once() {
    assert_eq!(usfm_core::lines::strip_newline("abc\n"), "abc");
    assert_eq!(usfm_core::lines::strip_newline("abc"), "abc");
}

#[test]
fn a_position_counts_lines_and_clusters_from_the_line_start() {
    let source = "\\v 1 क्ष x\nab";
    assert_eq!(usfm_core::lines::position(source, 15), (1, 8));
    assert_eq!(usfm_core::lines::position(source, 17), (2, 1));
    assert_eq!(usfm_core::lines::position(source, 19), (2, 3));
    assert_eq!(usfm_core::lines::position(source, 100), (2, 3));
}
