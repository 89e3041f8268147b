use usfm_core::frequencies;

#[test]
fn frequencies_count_a_marker_and_its_nested_form_together() {
    let counts = frequencies("\\bd a\\bd* \\+bd b\\+bd* \\p\n");
    assert_eq!(counts.get("bd"), Some(&4));
    assert_eq!(counts.get("p"), Some(&1));
    assert_eq!(counts.get("it"), None);
}

#[test]
fn frequencies_survive_a_trailing_backslash() {
    assert!(frequencies("\\p text\\").len() <= 2);
    assert_eq!(frequencies("\\").len(), 0);
}

#[test]
fn each_marker_is_counted_once_per_use() {
    let counts = frequencies("\\v 1 a \\v 2 b \\q1 c \\q-s\\*");
    assert_eq!(counts.get("v"), Some(&2));
    assert_eq!(counts.get("q1"), Some(&1));
    assert_eq!(counts.get("q-s"), Some(&1));
    assert_eq!(counts.len(), 3);
}
