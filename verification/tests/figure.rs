use std::path::PathBuf;
use usfm_core::figure::{check_size, contains_path, resolve, Refusal, MAX_BYTES};

const ROOT: &str = "/books/genesis";

fn root() -> PathBuf {
    PathBuf::from(ROOT)
}

fn resolved(asked: &str) -> Result<PathBuf, Refusal> {
    resolve(ROOT, asked).map(PathBuf::from)
}

#[test]
fn resolves_a_plain_relative_path() {
    assert_eq!(resolved("figures/map.png"), Ok(root().join("figures").join("map.png")));
}

#[test]
fn drops_a_leading_current_directory() {
    assert_eq!(resolved("./map.png"), Ok(root().join("map.png")));
}

#[test]
fn rejects_traversal() {
    assert_eq!(resolved("../secrets.png"), Err(Refusal::NotLocal));
    assert_eq!(resolved("figures/../../secrets.png"), Err(Refusal::NotLocal));
}

#[test]
fn rejects_traversal_spelled_with_backslashes() {
    assert_eq!(resolved("..\\secrets.png"), Err(Refusal::NotLocal));
    assert_eq!(resolved("figures\\..\\..\\secrets.png"), Err(Refusal::NotLocal));
}

#[test]
fn rejects_percent_encoded_traversal() {
    assert_eq!(resolved("%2e%2e%2fsecrets.png"), Err(Refusal::NotLocal));
    assert_eq!(resolved("%2E%2E/secrets.png"), Err(Refusal::NotLocal));
    assert_eq!(resolved("%2e%2e%5csecrets.png"), Err(Refusal::NotLocal));
}

#[test]
fn rejects_doubly_encoded_traversal() {
    assert_eq!(resolved("%252e%252e%252fsecrets.png"), Err(Refusal::NotLocal));
}

#[test]
fn rejects_a_drive_letter_on_every_platform() {
    assert_eq!(resolved("C:/Windows/win.ini"), Err(Refusal::NotLocal));
    assert_eq!(resolved("c:map.png"), Err(Refusal::NotLocal));
}

#[test]
fn rejects_absolute_paths() {
    assert_eq!(resolved("/etc/passwd"), Err(Refusal::NotLocal));
    assert_eq!(resolved("C:/Windows/win.ini"), Err(Refusal::NotLocal));
    assert_eq!(resolved("\\\\server\\share\\x.png"), Err(Refusal::NotLocal));
}

#[test]
fn rejects_every_scheme() {
    for asked in [
        "https://evil.test/x.png",
        "http://evil.test/x.png",
        "file:///etc/passwd",
        "data:image/png;base64,AAAA",
    ] {
        assert_eq!(resolved(asked), Err(Refusal::NotLocal), "{asked}");
    }
}

#[test]
fn rejects_a_scheme_hidden_by_encoding() {
    assert_eq!(resolved("https%3A%2F%2Fevil.test%2Fx.png"), Err(Refusal::NotLocal));
}

#[test]
fn rejects_malformed_encoding() {
    assert_eq!(resolved("%zz.png"), Err(Refusal::NotLocal));
    assert_eq!(resolved("map%2.png"), Err(Refusal::NotLocal));
}

#[test]
fn rejects_nothing_at_all() {
    assert_eq!(resolved(""), Err(Refusal::NotLocal));
    assert_eq!(resolved("   "), Err(Refusal::NotLocal));
    assert_eq!(resolved("./"), Err(Refusal::NotLocal));
}

#[test]
fn keeps_a_filename_that_merely_contains_dots() {
    assert_eq!(resolved("map..v2.png"), Ok(root().join("map..v2.png")));
}

// ------------------------------------------------------------------ own ---

#[test]
fn an_encoded_space_and_doubled_separators_resolve() {
    assert_eq!(resolve(ROOT, "figures//my%20map.png"), Ok("/books/genesis/figures/my map.png".to_string()));
    assert_eq!(resolve("/books/", "a\\b.png"), Ok("/books/a/b.png".to_string()));
    assert_eq!(resolve("", "a.png"), Ok("a.png".to_string()));
    // three rounds at most: a fourth level of encoding is left as it is
    assert_eq!(resolve("d", "%25252541"), Ok("d/%41".to_string()));
}

#[test]
fn encoded_bytes_must_make_utf8() {
    assert_eq!(resolve("d", "%C3%A9.png"), Ok("d/\u{e9}.png".to_string()));
    assert_eq!(resolve("d", "%C3.png"), Err(Refusal::NotLocal));
    // a plus sign is a digit's sign to the radix parser
    assert_eq!(resolve("d", "%+41.png"), Ok("d/\u{4}1.png".to_string()));
}

#[test]
fn refusals_say_why() {
    assert_eq!(Refusal::NotLocal.to_string(), "not a local file in the document's folder");
    assert_eq!(Refusal::NoDirectory.to_string(), "save the document first");
    assert_eq!(Refusal::Unknown.to_string(), "that document is not open");
    assert_eq!(Refusal::TooLarge { bytes: 25_000_000 }.to_string(), "larger than 20 MB (25000000 bytes)");
    assert_eq!(Refusal::Missing.to_string(), "not found");
}

#[test]
fn a_resolved_path_is_within_its_folder_by_whole_components() {
    assert!(contains_path("/books/genesis", "/books/genesis/figures/map.png"));
    assert!(contains_path("/books/genesis", "/books/genesis"));
    assert!(contains_path("/books/genesis/", "/books//genesis/map.png"));
    assert!(!contains_path("/books/genesis", "/books/genesis2/map.png"));
    assert!(!contains_path("/books/genesis", "/etc/passwd"));
    assert!(!contains_path("/books/genesis", "books/genesis/map.png"));
    assert!(contains_path("/", "/etc/passwd"));
}

#[test]
fn a_figure_over_twenty_megabytes_is_refused() {
    assert_eq!(MAX_BYTES, 20 * 1024 * 1024);
    assert_eq!(check_size(MAX_BYTES), Ok(()));
    assert_eq!(check_size(0), Ok(()));
    assert_eq!(check_size(MAX_BYTES + 1), Err(Refusal::TooLarge { bytes: MAX_BYTES + 1 }));
    assert_eq!(
        Refusal::TooLarge { bytes: MAX_BYTES + 1 }.to_string(),
        "larger than 20 MB (20971521 bytes)"
    );
}
