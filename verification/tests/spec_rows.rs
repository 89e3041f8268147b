use usfm_core::markers::{self, Closing, MarkerClass, MarkerTable};
use usfm_core::{completions, Completion, CompletionContext};

/// The rows of the generated stylesheet table these cases speak of, in the
/// form the generator writes them.
const ROWS: &str = "# USFM stylesheet rows
[addpn]
class = \"character\"
closing = \"explicit\"
nests_under = [\"*\"]
deprecated_in = \"3.0\"

[bd]
class = \"character\"
closing = \"explicit\"
nests_under = [\"*\"]
publishable = true

[cat]
class = \"character\"
closing = \"explicit\"
nests_under = [\"*\"]
since = \"3.1\"

[esb]
class = \"paragraph\"
closing = \"explicit\"
since = \"3.1\"

[f]
class = \"note\"
closing = \"explicit\"

[it]
class = \"character\"
closing = \"explicit\"
nests_under = [\"*\"]
publishable = true

[jmp]
class = \"character\"
closing = \"explicit\"
nests_under = [\"*\"]
attributes = [\"link-href\", \"link-title\", \"link-id\"]
default_attr = \"link-href\"

[p]
class = \"paragraph\"
closing = \"implicit\"
publishable = true

[ph]
class = \"paragraph\"
closing = \"implicit\"
deprecated_in = \"3.0\"
replacement = \"pi#\"

[pi]
class = \"paragraph\"
closing = \"implicit\"

[pi1]
class = \"paragraph\"
closing = \"implicit\"

[pro]
class = \"character\"
closing = \"explicit\"
nests_under = [\"*\"]
deprecated_in = \"3.0\"

[q1]
class = \"paragraph\"
closing = \"implicit\"

[q2]
class = \"paragraph\"
closing = \"implicit\"

[qt-s]
class = \"milestone\"
closing = \"milestone\"

[usfm]
class = \"unclassified\"

[w]
class = \"character\"
closing = \"explicit\"
nests_under = [\"*\"]
attributes = [\"lemma\", \"strong\", \"srcloc\"]
default_attr = \"lemma\"
";

fn rows() -> MarkerTable {
    MarkerTable::parse(ROWS).expect("the stylesheet rows parse")
}

fn start_of_line() -> CompletionContext {
    CompletionContext { line_initial: true, inside: None }
}

fn within_line() -> CompletionContext {
    CompletionContext { line_initial: false, inside: None }
}

fn position_of(offers: &[Completion], marker: &str) -> usize {
    offers
        .iter()
        .position(|offer| offer.marker == marker)
        .unwrap_or_else(|| panic!("\\{marker} was not offered at all"))
}

#[test]
fn a_character_marker_closes_explicitly_and_nests_anywhere() {
    let t = rows();
    let bd = markers::lookup(&t, "bd").expect("\\bd is in the specification");
    assert_eq!(bd.class, MarkerClass::Character);
    assert_eq!(bd.closing, Closing::Explicit);
    assert!(bd.nests_under("p"));
    assert!(bd.nests_under("q1"));
}

#[test]
fn a_paragraph_marker_closes_implicitly() {
    let t = rows();
    let q1 = markers::lookup(&t, "q1").expect("\\q1 is in the specification");
    assert_eq!(q1.class, MarkerClass::Paragraph);
    assert_eq!(q1.closing, Closing::Implicit);
}

#[test]
fn milestones_are_classified_by_their_suffix() {
    let t = rows();
    let start = markers::lookup(&t, "qt-s").expect("\\qt-s is in the specification");
    assert_eq!(start.closing, Closing::Milestone);
    assert_eq!(start.class, MarkerClass::Milestone);
}

#[test]
fn the_nesting_prefix_resolves_to_the_marker_it_nests() {
    let t = rows();
    assert_eq!(markers::lookup(&t, "+bd").map(|i| i.marker.as_str()), Some("bd"));
}

#[test]
fn a_level_deeper_than_the_specification_lists_falls_back() {
    let t = rows();
    assert!(markers::lookup(&t, "pi1").is_some());
    assert_eq!(markers::lookup(&t, "pi9").map(|i| i.class), Some(MarkerClass::Paragraph));
}

#[test]
fn deprecations_carry_their_replacement() {
    let t = rows();
    let ph = markers::lookup(&t, "ph").expect("\\ph is in the specification");
    assert_eq!(ph.deprecated_in.as_deref(), Some("3.0"));
    assert_eq!(ph.replacement.as_deref(), Some("pi#"));

    for marker in ["addpn", "pro"] {
        assert!(
            markers::lookup(&t, marker).is_some_and(|i| i.deprecated_in.is_some()),
            "\\{marker} should be marked deprecated"
        );
    }
}

#[test]
fn attributes_and_their_defaults_are_recorded() {
    let t = rows();
    let jmp = markers::lookup(&t, "jmp").expect("\\jmp is in the specification");
    assert_eq!(jmp.attributes, vec!["link-href", "link-title", "link-id"]);
    assert_eq!(jmp.default_attr.as_deref(), Some("link-href"));

    let w = markers::lookup(&t, "w").expect("\\w is in the specification");
    assert_eq!(w.default_attr.as_deref(), Some("lemma"));
}

#[test]
fn markers_introduced_in_3_1_are_dated() {
    let t = rows();
    assert_eq!(markers::lookup(&t, "esb").and_then(|i| i.since.as_deref()), Some("3.1"));
    assert_eq!(markers::lookup(&t, "cat").and_then(|i| i.since.as_deref()), Some("3.1"));
}

#[test]
fn a_marker_the_specification_does_not_define_is_absent() {
    let t = rows();
    assert!(markers::lookup(&t, "definitelynotamarker").is_none());
    assert!(markers::is_custom("zaln-s"));
    assert!(!markers::is_custom("bd"));
}

#[test]
fn a_paragraph_marker_is_valid_at_the_start_of_a_line_and_not_within_one() {
    let t = rows();
    let start = completions(&start_of_line(), "", &t);
    let middle = completions(&within_line(), "", &t);

    assert!(start[position_of(&start, "p")].valid_here);
    assert!(!middle[position_of(&middle, "p")].valid_here);
}

#[test]
fn a_character_marker_is_valid_in_both() {
    let t = rows();
    let start = completions(&start_of_line(), "", &t);
    let middle = completions(&within_line(), "", &t);

    assert!(start[position_of(&start, "bd")].valid_here);
    assert!(middle[position_of(&middle, "bd")].valid_here);
}

#[test]
fn what_is_valid_here_comes_first() {
    let t = rows();
    let offers = completions(&within_line(), "", &t);
    let first_invalid = offers
        .iter()
        .position(|offer| !offer.valid_here)
        .expect("some marker is invalid mid-line");
    let last_valid = offers
        .iter()
        .rposition(|offer| offer.valid_here)
        .expect("some marker is valid mid-line");

    assert!(last_valid < first_invalid, "the two groups are interleaved");
}

#[test]
fn a_deprecated_marker_is_never_ranked_first() {
    let t = rows();
    let source = "\\ph text\n".repeat(200);
    let offers = completions(&start_of_line(), &source, &t);

    assert!(offers[0].deprecated_in.is_none(), "{:?}", offers[0]);
    assert!(offers[position_of(&offers, "ph")].uses >= 200);
}

#[test]
fn a_deprecated_marker_carries_its_replacement_for_the_grey_text() {
    let t = rows();
    let offers = completions(&start_of_line(), "", &t);
    let ph = &offers[position_of(&offers, "ph")];

    assert_eq!(ph.deprecated_in.as_deref(), Some("3.0"));
    assert_eq!(ph.replacement.as_deref(), Some("pi#"));
    assert!(ph.detail.contains("pi#"), "{}", ph.detail);
}

#[test]
fn frequency_orders_what_validity_does_not() {
    let t = rows();
    let source = "\\q1 a\n\\q1 b\n\\q1 c\n";
    let offers = completions(&start_of_line(), source, &t);

    assert!(
        position_of(&offers, "q1") < position_of(&offers, "q2"),
        "the used marker should outrank the unused one"
    );
}

#[test]
fn ties_break_alphabetically() {
    let t = rows();
    let offers = completions(&start_of_line(), "", &t);
    let names: Vec<&str> = offers
        .iter()
        .filter(|o| o.valid_here && o.deprecated_in.is_none() && o.uses == 0)
        .map(|o| o.marker.as_str())
        .collect();

    let mut sorted = names.clone();
    sorted.sort_unstable();
    assert_eq!(names, sorted);
}

#[test]
fn an_explicit_marker_brings_its_closing_with_it() {
    let t = rows();
    let offers = completions(&within_line(), "", &t);
    let bd = &offers[position_of(&offers, "bd")];

    assert_eq!(bd.insert, "bd \\bd*");
    assert_eq!(bd.caret, 3);
}

#[test]
fn nesting_inside_a_character_marker_adds_the_required_prefix() {
    let t = rows();
    let context = CompletionContext { line_initial: false, inside: Some("bd".to_string()) };
    let offers = completions(&context, "", &t);
    let it = &offers[position_of(&offers, "it")];

    assert_eq!(it.insert, "+it \\+it*");
    assert!(it.valid_here);
}

#[test]
fn a_paragraph_marker_is_not_valid_inside_a_character_marker() {
    let t = rows();
    let context = CompletionContext { line_initial: true, inside: Some("bd".to_string()) };
    let offers = completions(&context, "", &t);
    assert!(!offers[position_of(&offers, "p")].valid_here);
}

#[test]
fn a_milestone_closes_itself() {
    let t = rows();
    let offers = completions(&within_line(), "", &t);
    let qt = &offers[position_of(&offers, "qt-s")];
    assert_eq!(qt.insert, "qt-s\\*");
    assert_eq!(qt.caret, 4);
}

#[test]
fn structural_pseudo_entries_are_never_offered() {
    let t = rows();
    let offers = completions(&start_of_line(), "", &t);
    assert!(offers.iter().all(|o| o.class != MarkerClass::Unclassified));
}
