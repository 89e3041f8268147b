use usfm_core::backend::pipes::{restore, LexToken};
use usfm_core::parsed::Document;
use usfm_core::{ByteSpan, Node, NodeKind};

fn spanned(kind: NodeKind, start: usize, end: usize) -> Node {
    let mut n = Node::new(kind);
    n.span = Some(ByteSpan::new(start, end));
    n
}

fn text(t: &str) -> Node {
    let mut n = Node::new(NodeKind::Text);
    n.text = Some(t.to_string());
    n
}

fn token(kind: &str, start: usize, end: usize, text: &str) -> LexToken {
    LexToken { kind: kind.to_string(), start, end, text: text.to_string() }
}

fn texts(node: &Node) -> Vec<String> {
    node.children.iter().filter_map(|c| c.text.clone()).collect()
}

#[test]
fn a_dropped_pipe_comes_back_into_its_paragraph() {
    let mut para = spanned(NodeKind::Para, 10, 45);
    para.children.push(text("before"));
    let mut content = vec![para];
    let tokens = vec![
        token("text", 14, 20, "before"),
        token("attributes", 20, 44, "| after more words"),
    ];
    restore(&mut content, &tokens);
    assert_eq!(texts(&content[0]), vec!["before".to_string(), "| after more words".to_string()]);
}

#[test]
fn a_pipe_inside_a_character_marker_stays_an_attribute() {
    let mut para = spanned(NodeKind::Para, 0, 60);
    let mut w = spanned(NodeKind::Char, 10, 50);
    w.children.push(text("grace"));
    para.children.push(w);
    let mut content = vec![para];
    let tokens = vec![token("attributes", 18, 45, "|lemma=\"grace\"")];
    restore(&mut content, &tokens);
    assert_eq!(content[0].children.len(), 1);
    assert_eq!(content[0].children[0].kind, NodeKind::Char);
}

#[test]
fn only_attribute_tokens_are_put_back() {
    let mut content = vec![spanned(NodeKind::Para, 0, 30)];
    let tokens = vec![token("text", 5, 10, "words"), token("marker", 10, 12, "\\v")];
    restore(&mut content, &tokens);
    assert!(content[0].children.is_empty());
}

#[test]
fn restored_text_goes_before_the_next_marker() {
    let mut para = spanned(NodeKind::Para, 0, 60);
    para.children.push(spanned(NodeKind::Verse, 3, 8));
    para.children.push(text("one"));
    para.children.push(spanned(NodeKind::Char, 30, 45));
    para.children.push(text(" four"));
    let mut content = vec![para];
    let tokens = vec![token("attributes", 12, 19, "| two ")];
    restore(&mut content, &tokens);
    let kids = &content[0].children;
    assert_eq!(kids.len(), 5);
    assert_eq!(kids[0].kind, NodeKind::Verse);
    assert_eq!(kids[1].text.as_deref(), Some("one"));
    assert_eq!(kids[2].text.as_deref(), Some("| two "));
    assert_eq!(kids[3].kind, NodeKind::Char);
}

#[test]
fn several_dropped_pipes_all_come_back_in_order() {
    let mut para = spanned(NodeKind::Para, 0, 80);
    para.children.push(text("a"));
    para.children.push(spanned(NodeKind::Char, 20, 35));
    let mut content = vec![para];
    let tokens = vec![
        token("attributes", 5, 12, "| b "),
        token("attributes", 40, 50, "| e"),
    ];
    restore(&mut content, &tokens);
    let kids = &content[0].children;
    assert_eq!(kids.len(), 4);
    assert_eq!(kids[1].text.as_deref(), Some("| b "));
    assert_eq!(kids[2].kind, NodeKind::Char);
    assert_eq!(kids[3].text.as_deref(), Some("| e"));
}

#[test]
fn the_innermost_table_cell_claims_the_pipe() {
    let mut row = spanned(NodeKind::TableRow, 0, 60);
    let mut first = spanned(NodeKind::TableCell, 4, 30);
    first.children.push(text("first"));
    row.children.push(first);
    let mut second = spanned(NodeKind::TableCell, 30, 60);
    second.children.push(text("third"));
    row.children.push(second);
    let mut content = vec![row];
    let tokens = vec![token("attributes", 15, 29, "| second ")];
    restore(&mut content, &tokens);
    let row = &content[0];
    assert_eq!(row.children.len(), 2);
    assert_eq!(texts(&row.children[0]), vec!["first".to_string(), "| second ".to_string()]);
    assert_eq!(texts(&row.children[1]), vec!["third".to_string()]);
}

#[test]
fn a_cell_inside_a_paragraph_keeps_the_pipe_from_the_paragraph() {
    let mut outer = spanned(NodeKind::Para, 0, 100);
    outer.children.push(spanned(NodeKind::TableCell, 10, 50));
    let mut content = vec![outer];
    let tokens = vec![token("attributes", 20, 30, "|")];
    restore(&mut content, &tokens);
    assert_eq!(content[0].children.len(), 1);
    assert_eq!(texts(&content[0].children[0]), vec!["|".to_string()]);
}

#[test]
fn a_pipe_outside_every_paragraph_is_left_out() {
    let mut content = vec![spanned(NodeKind::Chapter, 0, 6), spanned(NodeKind::Para, 10, 20)];
    let tokens = vec![token("attributes", 2, 5, "| x")];
    restore(&mut content, &tokens);
    assert!(content[0].children.is_empty());
    assert!(content[1].children.is_empty());
}

#[test]
fn no_tokens_leave_the_tree_as_it_was() {
    let mut para = spanned(NodeKind::Para, 0, 10);
    para.children.push(text("x"));
    let mut content = vec![para];
    restore(&mut content, &[]);
    let mut expected_para = spanned(NodeKind::Para, 0, 10);
    expected_para.children.push(text("x"));
    assert_eq!(content, vec![expected_para]);
}

/// All the text in the document, in order.
fn all_text(doc: &Document) -> String {
    let mut out = String::new();
    for node in doc.descendants() {
        if node.kind == NodeKind::Text {
            if let Some(t) = &node.text {
                out.push_str(t);
            }
        }
    }
    out
}

#[test]
fn a_pipe_mid_line_does_not_swallow_the_rest_of_it() {
    let doc = Document::parse("\\id 3JN\n\\c 1\n\\p\n\\v 11 before| after more words\n");
    let got = all_text(&doc);

    assert!(got.contains("before"), "{got:?}");
    assert!(
        got.contains("after more words"),
        "text after the pipe was lost: {got:?}"
    );
    // The pipe is the punctuation, so it comes back too.
    assert!(got.contains('|'), "the danda itself was lost: {got:?}");
}

/// The subtler half of the same bug. `parse_attributes("|")` yields an empty
/// list, which the builder also discards — so a danda at the end of a line
/// disappeared even when no words followed it.
#[test]
fn a_pipe_at_the_end_of_a_line_survives() {
    let doc = Document::parse("\\id 3JN\n\\c 1\n\\p\n\\v 6 a sentence|\n\\v 7 another|\n");
    let got = all_text(&doc);

    assert_eq!(got.matches('|').count(), 2, "{got:?}");
}

/// The regression this repair must not cause: a real attribute block on a
/// character marker is still an attribute block.
#[test]
fn a_real_attribute_is_still_consumed() {
    let doc = Document::parse(
        "\\id 3JN\n\\c 1\n\\p\n\\v 1 word \\w grace|lemma=\"grace\" strong=\"G5485\"\\w* after\n",
    );
    let got = all_text(&doc);

    assert!(
        !got.contains('|'),
        "attribute syntax leaked into text: {got:?}"
    );
    assert!(!got.contains("lemma"), "{got:?}");

    let w = doc
        .descendants()
        .into_iter()
        .find(|n| n.marker.as_ref().is_some_and(|m| m.as_str() == "w"))
        .expect("the \\w node");
    assert_eq!(w.attribute("lemma"), Some("grace"));
    assert_eq!(w.attribute("strong"), Some("G5485"));
}

#[test]
fn a_figure_keeps_its_attributes_and_its_caption() {
    let doc = Document::parse(
        "\\id MRK\n\\c 1\n\\p\n\\v 1 \\fig The boat|src=\"boat.png\" size=\"col\"\\fig*\n",
    );
    let got = all_text(&doc);

    assert!(got.contains("The boat"), "{got:?}");
    assert!(!got.contains("boat.png"), "attributes leaked: {got:?}");

    let fig = doc
        .descendants()
        .into_iter()
        .find(|n| n.kind == NodeKind::Figure)
        .expect("the figure");
    assert_eq!(fig.attribute("file"), Some("boat.png"));
}

/// Restored text has to land where it was written, not at the end of the
/// paragraph — otherwise a sentence reads in the wrong order.
#[test]
fn restored_text_keeps_its_position() {
    let doc = Document::parse("\\id 3JN\n\\c 1\n\\p\n\\v 1 one| two \\add three\\add* four\n");
    let got = all_text(&doc);

    let (one, two) = (got.find("one").expect("one"), got.find("two").expect("two"));
    let (three, four) = (
        got.find("three").expect("three"),
        got.find("four").expect("four"),
    );
    assert!(
        one < two && two < three && three < four,
        "out of order: {got:?}"
    );
}

#[test]
fn several_pipes_on_one_line_all_come_back() {
    let doc = Document::parse("\\id 3JN\n\\c 1\n\\p\n\\v 1 a| b \\add c\\add* d| e\n");
    let got = all_text(&doc);

    assert_eq!(got.matches('|').count(), 2, "{got:?}");
    for word in ["a", "b", "c", "d", "e"] {
        assert!(got.contains(word), "{word} missing from {got:?}");
    }
}

#[test]
fn a_pipe_inside_a_table_cell_survives() {
    let doc = Document::parse("\\id 3JN\n\\c 1\n\\tr \\tc1 first| second \\tc2 third\n");
    let got = all_text(&doc);

    assert!(got.contains("second"), "{got:?}");
    assert!(got.contains("third"), "{got:?}");
}

/// The shape that started this: a real verse from a Sanskrit translation,
/// where the danda ends every clause.
#[test]
fn an_indic_verse_keeps_every_clause() {
    let source = [
        "\\id 3JN\n\\c 1\n\\p\n",
        "\\v 11 হে প্ৰিয, ৎৱযা দুষ্কৰ্ম্ম নানুক্ৰিযতাং কিন\u{9cd}তু সৎকৰ্ম্মৈৱ| ",
        "যঃ সৎকৰ্ম্মাচাৰী স ঈশ্ৱৰাৎ জাতঃ, যো দুষ্কৰ্ম্মাচাৰী স ঈশ্ৱৰং ন দৃষ্টৱান্|\n",
    ]
    .concat();
    let doc = Document::parse(&source);
    let got = all_text(&doc);

    assert!(
        got.contains("সৎকৰ্ম্মাচাৰী"),
        "the clause after the danda was lost: {got:?}"
    );
    assert_eq!(got.matches('|').count(), 2, "{got:?}");
}
