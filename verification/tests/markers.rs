use usfm_core::markers::{self, Closing, MarkerClass, MarkerTable, TableError};
use usfm_core::severity::{marker_diagnostics, DiagnosticConfig};
use usfm_core::{completions, ByteSpan, CompletionContext, DiagnosticCode, Marker, Node, NodeKind, Severity, Version};

const TABLE: &str = "# generated from the stylesheet
[bd]
class = \"character\"
closing = \"explicit\"
nests_under = [\"*\"]
text_type = \"VerseText\"
publishable = true
attributes = []

[p]
class = \"paragraph\"
closing = \"implicit\"
publishable = true

[pi]
class = \"paragraph\"
closing = \"implicit\"

[ph]
class = \"paragraph\"
closing = \"implicit\"
deprecated_in = \"3.0\"
replacement = \"pi#\"

[qt-s]
class = \"milestone\"
closing = \"milestone\"

[jmp]
class = \"character\"
closing = \"explicit\"
nests_under = [\"p\", \"q1\"]
attributes = [\"link-href\", \"link-title\", \"link-id\"]
default_attr = \"link-href\"

[esb]
class = \"paragraph\"
closing = \"explicit\"
since = \"3.1\"

[f]
class = \"note\"
closing = \"explicit\"

[fig]
class = \"character\"
closing = \"explicit\"

[usfm]
class = \"unclassified\"
";

fn table() -> MarkerTable {
    MarkerTable::parse(TABLE).expect("the sample table parses")
}

#[test]
fn a_table_reads_one_entry_per_header() {
    let t = table();
    assert_eq!(markers::count(&t), 10);
    let names: Vec<&str> = markers::all(&t).iter().map(|i| i.marker.as_str()).collect();
    assert_eq!(names, vec!["bd", "p", "pi", "ph", "qt-s", "jmp", "esb", "f", "fig", "usfm"]);
}

#[test]
fn fields_are_read_into_their_entry() {
    let t = table();
    let bd = markers::lookup(&t, "bd").unwrap();
    assert_eq!(bd.class, MarkerClass::Character);
    assert_eq!(bd.closing, Closing::Explicit);
    assert_eq!(bd.text_type.as_deref(), Some("VerseText"));
    assert!(bd.publishable);
    assert!(bd.attributes.is_empty());
    assert!(bd.nests_under("p") && bd.nests_under("q1"));
    let jmp = markers::lookup(&t, "jmp").unwrap();
    assert_eq!(jmp.attributes, vec!["link-href", "link-title", "link-id"]);
    assert_eq!(jmp.default_attr.as_deref(), Some("link-href"));
    assert!(jmp.nests_under("q1") && !jmp.nests_under("li"));
    let ph = markers::lookup(&t, "ph").unwrap();
    assert_eq!(ph.deprecated_in.as_deref(), Some("3.0"));
    assert_eq!(ph.replacement.as_deref(), Some("pi#"));
    assert_eq!(markers::lookup(&t, "qt-s").unwrap().closing, Closing::Milestone);
    assert_eq!(markers::lookup(&t, "esb").unwrap().since.as_deref(), Some("3.1"));
    assert_eq!(markers::lookup(&t, "p").unwrap().closing, Closing::Implicit);
    assert_eq!(markers::lookup(&t, "usfm").unwrap().closing, Closing::SelfContained);
}

#[test]
fn lookup_sees_through_the_nesting_prefix_and_levels() {
    let t = table();
    assert_eq!(markers::lookup(&t, "+bd").map(|i| i.marker.as_str()), Some("bd"));
    assert_eq!(markers::lookup(&t, "pi9").map(|i| i.marker.as_str()), Some("pi"));
    assert_eq!(markers::lookup(&t, "pi12").map(|i| i.class), Some(MarkerClass::Paragraph));
    assert!(markers::lookup(&t, "definitelynotamarker").is_none());
    assert!(markers::lookup(&t, "9").is_none());
    assert!(t.get("pi9").is_none());
}

#[test]
fn the_z_namespace_is_custom() {
    assert!(markers::is_custom("zaln-s"));
    assert!(markers::is_custom("+zx"));
    assert!(!markers::is_custom("bd"));
    assert!(!markers::is_custom("+"));
}

#[test]
fn attributes_are_accepted_by_character_markers_and_markers_with_their_own() {
    let t = table();
    assert!(markers::lookup(&t, "bd").unwrap().accepts_attributes());
    assert!(markers::lookup(&t, "jmp").unwrap().accepts_attributes());
    assert!(!markers::lookup(&t, "p").unwrap().accepts_attributes());
}

#[test]
fn a_repeated_header_replaces_the_earlier_entry() {
    let t = MarkerTable::parse("[a]\nclass = \"note\"\n[b]\n[a]\nclass = \"character\"\n").unwrap();
    assert_eq!(markers::count(&t), 2);
    assert_eq!(markers::lookup(&t, "a").unwrap().class, MarkerClass::Character);
    assert_eq!(markers::all(&t)[0].marker, "a");
}

#[test]
fn each_malformed_line_is_refused_with_its_number() {
    let refused = |text: &str| MarkerTable::parse(text).err();
    assert_eq!(refused("[a]\nclass\n"), Some(TableError::NotAField { line: 2 }));
    assert_eq!(refused("\n\nclass = \"note\"\n"), Some(TableError::FieldBeforeMarker { line: 3 }));
    assert_eq!(refused("[a]\nclass = \"word\"\n"), Some(TableError::UnknownClass { line: 2 }));
    assert_eq!(refused("[a]\n# c\nclosing = \"open\"\n"), Some(TableError::UnknownClosing { line: 3 }));
    assert_eq!(refused("[a]\ncolour = \"red\"\n"), Some(TableError::UnknownField { line: 2 }));
    assert_eq!(refused("[a]\nsince = 3.1\n"), Some(TableError::NotQuoted { line: 2 }));
    assert_eq!(refused("[a]\nattributes = \"x\"\n"), Some(TableError::NotAList { line: 2 }));
    assert_eq!(refused("[a]\nattributes = [\"x\", y]\n"), Some(TableError::NotQuoted { line: 2 }));
    assert!(MarkerTable::parse("").is_ok());
    assert!(MarkerTable::parse("  [a]  \r\n  nests_under = [ ]\r\n").is_ok());
}

// ------------------------------------------------------------- completion ---

fn at_line_start() -> CompletionContext {
    CompletionContext { line_initial: true, inside: None }
}

fn mid_line() -> CompletionContext {
    CompletionContext { line_initial: false, inside: None }
}

fn rank(offers: &[usfm_core::Completion], marker: &str) -> usize {
    offers.iter().position(|o| o.marker == marker).expect("offered")
}

#[test]
fn pseudo_entries_are_never_offered() {
    let offers = completions(&at_line_start(), "", &table());
    assert_eq!(offers.len(), 9);
    assert!(offers.iter().all(|o| o.marker != "usfm"));
}

#[test]
fn valid_markers_come_first_and_deprecated_ones_last_among_them() {
    let offers = completions(&mid_line(), "\\ph a \\ph b \\ph c", &table());
    // mid-line, a paragraph marker is not valid, however often it is used
    assert!(rank(&offers, "bd") < rank(&offers, "p"));
    assert!(!offers[rank(&offers, "p")].valid_here);
    let at_start = completions(&at_line_start(), "\\ph a \\ph b \\ph c", &table());
    assert!(at_start[rank(&at_start, "ph")].valid_here);
    assert!(rank(&at_start, "p") < rank(&at_start, "ph"), "a deprecated marker outranked a current one");
    assert_eq!(at_start[rank(&at_start, "ph")].uses, 3);
}

#[test]
fn frequency_orders_what_validity_does_not_and_names_break_ties() {
    let offers = completions(&mid_line(), "\\jmp x\\jmp* \\+jmp y\\+jmp*", &table());
    assert_eq!(offers[0].marker, "jmp");
    assert_eq!(offers[0].uses, 4);
    assert_eq!(offers[1].marker, "bd");
    assert_eq!(offers[2].marker, "f");
    assert_eq!(offers[3].marker, "fig");
    assert_eq!(offers[4].marker, "qt-s");
}

#[test]
fn what_typing_a_marker_inserts() {
    let offers = completions(&mid_line(), "", &table());
    let bd = &offers[rank(&offers, "bd")];
    assert_eq!(bd.insert, "bd \\bd*");
    assert_eq!(bd.caret, 3);
    let ms = &offers[rank(&offers, "qt-s")];
    assert_eq!(ms.insert, "qt-s\\*");
    assert_eq!(ms.caret, 4);
    let p = &offers[rank(&offers, "p")];
    assert_eq!(p.insert, "p ");
    assert_eq!(p.caret, 2);
    let inside = CompletionContext { line_initial: false, inside: Some("bd".to_string()) };
    let nested = completions(&inside, "", &table());
    let bd = &nested[rank(&nested, "bd")];
    assert_eq!(bd.insert, "+bd \\+bd*");
    assert_eq!(bd.caret, 4);
    assert!(bd.valid_here);
    assert!(!nested[rank(&nested, "jmp")].valid_here, "jmp does not nest under bd");
    assert!(!nested[rank(&nested, "f")].valid_here, "no note inside a character marker");
}

#[test]
fn details_name_the_class_and_any_deprecation() {
    let offers = completions(&at_line_start(), "", &table());
    assert_eq!(offers[rank(&offers, "ph")].detail, "paragraph \u{b7} deprecated in 3.0, use \\pi#");
    assert_eq!(offers[rank(&offers, "f")].detail, "note");
    assert_eq!(offers[rank(&offers, "ph")].deprecated_in.as_deref(), Some("3.0"));
}

// --------------------------------------------------------------- severity ---

fn node(marker: &str, start: usize, end: usize) -> Node {
    let mut n = Node::new(NodeKind::Char);
    n.marker = Some(Marker::new(marker));
    n.span = Some(ByteSpan::new(start, end));
    n
}

#[test]
fn an_unknown_marker_is_a_warning_and_a_custom_one_information() {
    let nodes = vec![node("notamarker", 0, 11), node("zwhatever", 12, 22)];
    let found = marker_diagnostics(&nodes, "", &DiagnosticConfig::default(), &table());
    assert_eq!(found.len(), 2);
    assert_eq!(found[0].code, DiagnosticCode::UnknownMarker);
    assert_eq!(found[0].severity, Severity::Warning);
    assert_eq!(found[0].message, "\\notamarker is not a USFM marker");
    assert_eq!(found[1].severity, Severity::Information);
    assert_eq!(found[1].message, "\\zwhatever is a custom marker; its meaning is not defined by USFM");
}

#[test]
fn a_deprecated_marker_names_its_replacement() {
    let found = marker_diagnostics(&[node("ph", 0, 3)], "", &DiagnosticConfig::default(), &table());
    assert_eq!(found.len(), 1);
    assert_eq!(found[0].code, DiagnosticCode::DeprecatedMarker);
    assert_eq!(found[0].message, "\\ph was deprecated in USFM 3.0; use \\pi#");
    // against a 2.x target it is not yet deprecated
    let mut older = DiagnosticConfig::default();
    older.target_version = Version { major: 2, minor: 4 };
    assert!(marker_diagnostics(&[node("ph", 0, 3)], "", &older, &table()).is_empty());
}

#[test]
fn a_marker_newer_than_the_document_is_information() {
    let found = marker_diagnostics(&[node("esb", 0, 4)], "", &DiagnosticConfig::default(), &table());
    assert_eq!(found.len(), 1);
    assert_eq!(found[0].code, DiagnosticCode::MarkerNewerThanDocument);
    assert_eq!(found[0].severity, Severity::Information);
    assert_eq!(found[0].message, "\\esb was introduced in USFM 3.1, but this document declares 3.0");
    let mut newer = DiagnosticConfig::default();
    newer.document_version = Version { major: 3, minor: 1 };
    assert!(marker_diagnostics(&[node("esb", 0, 4)], "", &newer, &table()).is_empty());
}

#[test]
fn the_positional_figure_form_is_flagged() {
    let source = "\\fig caption|image.png|span|||1.1\\fig*";
    let found = marker_diagnostics(&[node("fig", 0, source.len())], source, &DiagnosticConfig::default(), &table());
    assert_eq!(found.len(), 1);
    assert_eq!(found[0].code, DiagnosticCode::LegacyFigureSyntax);
    assert_eq!(found[0].message, "\\fig uses the USFM 2.x positional form; name the attributes (src, size, ref)");
    let named = "\\fig caption|src=\"a.png\" size=\"col\"\\fig*";
    assert!(marker_diagnostics(&[node("fig", 0, named.len())], named, &DiagnosticConfig::default(), &table()).is_empty());
}

#[test]
fn descendants_are_walked_and_nodes_without_spans_are_silent() {
    let mut parent = node("p", 0, 20);
    parent.children.push(node("nope", 3, 8));
    let mut bare = Node::new(NodeKind::Char);
    bare.marker = Some(Marker::new("nope"));
    parent.children.push(bare);
    let found = marker_diagnostics(&[parent], "", &DiagnosticConfig::default(), &table());
    assert_eq!(found.len(), 1);
    assert_eq!(found[0].span, ByteSpan::new(3, 8));
}
