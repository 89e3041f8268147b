use usfm_core::{Attribute, Marker, Node, NodeKind};

#[test]
fn usj_type_strings_match_the_specification() {
    assert_eq!(NodeKind::Milestone.as_str(), "ms");
    assert_eq!(NodeKind::TableRow.as_str(), "table:row");
    assert_eq!(NodeKind::TableCell.as_str(), "table:cell");
    assert_eq!(NodeKind::Reference.as_str(), "ref");
    assert_eq!(NodeKind::OptBreak.as_str(), "optbreak");
}

#[test]
fn markers_display_with_their_backslash() {
    assert_eq!(Marker::new("q1").to_string(), "\\q1");
    assert!(Marker::new("zaln-s").is_custom());
    assert!(!Marker::new("p").is_custom());
}

#[test]
fn descendants_yields_parents_before_children() {
    let mut root = Node::new(NodeKind::Para);
    let mut child = Node::new(NodeKind::Char);
    child.children.push(Node::new(NodeKind::Text));
    root.children.push(child);
    root.children.push(Node::new(NodeKind::Verse));

    let kinds: Vec<_> = root.descendants().iter().map(|node| node.kind).collect();
    assert_eq!(kinds, vec![NodeKind::Para, NodeKind::Char, NodeKind::Text, NodeKind::Verse]);
}

#[test]
fn the_first_attribute_with_a_key_is_the_one_read() {
    let mut node = Node::new(NodeKind::Verse);
    node.attributes.push(Attribute::new("number", "1"));
    node.attributes.push(Attribute::new("number", "2"));
    assert_eq!(node.attribute("number"), Some("1"));
    assert_eq!(node.attribute("sid"), None);
}
