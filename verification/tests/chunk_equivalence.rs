use usfm_core::parsed::Document;
use usfm_core::{ByteSpan, Node, NodeKind, Session};

// ------------------------------------------------------------ comparison ---

/// One node, flattened to what equivalence is actually about.
#[derive(Debug, Clone, PartialEq, Eq)]
struct Shape {
    depth: usize,
    kind: NodeKind,
    marker: Option<String>,
    attributes: Vec<(String, String)>,
    /// Text is compared verbatim. Whitespace handling at a chunk seam is
    /// exactly the sort of thing that would otherwise drift unnoticed.
    text: Option<String>,
    /// `None` for text and optional breaks, which the parser records without
    /// a source location at all.
    span: Option<ByteSpan>,
}

fn flatten(nodes: &[Node], depth: usize, into: &mut Vec<Shape>) {
    for node in nodes {
        into.push(Shape {
            depth,
            kind: node.kind,
            marker: node.marker.as_ref().map(|m| m.as_str().to_string()),
            attributes: node
                .attributes
                .iter()
                .map(|a| (a.key.clone(), a.value.clone()))
                .collect(),
            text: node.text.clone(),
            span: node.span.clone(),
        });
        flatten(&node.children, depth + 1, into);
    }
}

fn shapes(nodes: &[Node]) -> Vec<Shape> {
    let mut out = Vec::new();
    flatten(nodes, 0, &mut out);
    out
}

/// Compares the two parses, returning a readable account of the first
/// disagreement.
fn difference(source: &str) -> Option<String> {
    let chunked = shapes(&Session::new(source).content().expect("every chunk fits"));
    let document = Document::parse(source);
    let whole = shapes(document.content());

    if chunked == whole {
        return None;
    }

    let at = chunked
        .iter()
        .zip(&whole)
        .position(|(a, b)| a != b)
        .unwrap_or_else(|| chunked.len().min(whole.len()));

    let context = |shapes: &[Shape]| -> String {
        shapes
            .iter()
            .skip(at.saturating_sub(2))
            .take(5)
            .map(|shape| format!("      {shape:?}"))
            .collect::<Vec<_>>()
            .join("\n")
    };

    Some(format!(
        "  {} nodes chunked, {} whole; first difference at {at}\n\
         \x20   chunked:\n{}\n\
         \x20   whole:\n{}",
        chunked.len(),
        whole.len(),
        context(&chunked),
        context(&whole),
    ))
}

fn assert_equivalent(label: &str, source: &str) {
    if let Some(report) = difference(source) {
        panic!("chunked parse disagrees with whole-document parse — {label}\n{report}");
    }
}

// ------------------------------------------------------- the five cases ---
//
// ARCHITECTURE §12.2 names five edits worth testing on their own, because
// each one moves a chunk boundary and the corpus contains no edits at all.

const BOOK: &str = "\\id GEN Genesis\n\
                    \\h Genesis\n\
                    \\c 1\n\\p\n\\v 1 In the beginning.\n\\v 2 And the earth.\n\
                    \\c 2\n\\p\n\\v 1 Thus the heavens.\n\\v 2 And on the seventh day.\n\
                    \\c 3\n\\p\n\\v 1 Now the serpent.\n";

/// Applies an edit through the session, then checks the result parses the same
/// way from scratch — which is what "the incremental state is still correct"
/// means.
fn assert_edit_preserves_equivalence(label: &str, at: usize, remove: usize, insert: &str) {
    let mut session = Session::new(BOOK);
    let _ = session.content(); // parse everything first, so caches are live

    session
        .edit(ByteSpan::new(at, at + remove), insert)
        .unwrap_or_else(|error| panic!("{label}: edit refused: {error:?}"));

    let after = session.source().to_string();
    let incremental = shapes(&session.content().expect("every chunk fits"));
    let from_scratch = shapes(&Session::new(&after).content().expect("every chunk fits"));
    let document = Document::parse(&after);
    let whole = shapes(document.content());

    assert_eq!(
        incremental, from_scratch,
        "{label}: the incrementally updated tree differs from a fresh chunked parse"
    );
    assert_eq!(
        incremental, whole,
        "{label}: the incrementally updated tree differs from a whole-document parse"
    );
}

#[test]
fn case_1_inserting_a_chapter_marker() {
    let at = BOOK.find("\\v 2 And the earth").expect("verse");
    assert_edit_preserves_equivalence("inserting \\c", at, 0, "\\c 4\n\\p\n");
}

#[test]
fn case_2_deleting_a_chapter_marker() {
    let at = BOOK.find("\\c 2\n").expect("chapter 2");
    assert_edit_preserves_equivalence("deleting \\c", at, "\\c 2\n".len(), "");
}

#[test]
fn case_3_splitting_a_chapter() {
    // Mid-verse, so the split lands somewhere no boundary rule was written
    // with in mind.
    let at = BOOK.find("Thus the heavens").expect("verse text") + 5;
    assert_edit_preserves_equivalence("splitting a chapter", at, 0, "\n\\c 9\n\\p\n\\v 1 ");
}

#[test]
fn case_4_editing_the_header_chunk() {
    let at = BOOK.find("Genesis").expect("book name");
    assert_edit_preserves_equivalence("editing the header", at, "Genesis".len(), "Exodus");
}

#[test]
fn case_5_editing_at_the_exact_boundary() {
    // The first byte of a chapter marker: the position where the chunk that
    // owns the edit and the chunk that owns the boundary are different chunks.
    let at = BOOK.find("\\c 2\n").expect("chapter 2");
    assert_edit_preserves_equivalence("at the boundary, inserting before", at, 0, "\\p\n");
    assert_edit_preserves_equivalence("at the boundary, overwriting", at, 1, "\\");
    assert_edit_preserves_equivalence("at the boundary, deleting the newline", at - 1, 1, "");
}

// ------------------------------------------------------------- pathology ---

#[test]
fn equivalence_holds_for_shapes_that_stress_the_boundary() {
    let cases: &[(&str, &str)] = &[
        ("empty", ""),
        ("header only", "\\id GEN\n\\h Genesis\n"),
        ("chapter with no verses", "\\id GEN\n\\c 1\n\\c 2\n"),
        ("no header chunk", "\\c 1\n\\p\n\\v 1 text\n"),
        ("no trailing newline", "\\id GEN\n\\c 1\n\\p\n\\v 1 text"),
        ("crlf", "\\id GEN\r\n\\c 1\r\n\\p\r\n\\v 1 text\r\n"),
        ("blank lines between chapters", "\\id GEN\n\\c 1\n\n\n\\c 2\n\\p\n\\v 1 a\n"),
        (
            "unclosed marker crossing to the next chapter",
            "\\id GEN\n\\c 1\n\\p\n\\v 1 \\bd unclosed\n\\c 2\n\\p\n\\v 1 next\n",
        ),
        (
            "note left open at a chapter boundary",
            "\\id GEN\n\\c 1\n\\p\n\\v 1 \\f + \\ft open\n\\c 2\n\\p\n\\v 1 next\n",
        ),
        (
            "milestone spanning a chapter boundary",
            "\\id GEN\n\\c 1\n\\p\n\\v 1 \\qt-s |who=\"X\"\\*quoted\n\\c 2\n\\p\n\\v 1 \\qt-e\\*\n",
        ),
        (
            "markers that only look like chapters",
            "\\id GEN\n\\c 1\n\\cl Psalm\n\\cp A\n\\ca 2\\ca*\n\\p\n\\v 1 text\n",
        ),
        (
            "mixed scripts across chapters",
            "\\id GEN\n\\c 1\n\\p\n\\v 1 க்ஷேமம்\n\\c 2\n\\p\n\\v 1 שלום\n\\c 3\n\\p\n\\v 1 \u{1D400}\n",
        ),
    ];

    for (label, source) in cases {
        assert_equivalent(label, source);
    }
}
