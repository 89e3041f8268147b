use usfm_core::fidelity::{encode_file, endings_of};
use usfm_core::{DecodeError, Eol, FileFidelity, LineEndings};

fn assert_round_trips(bytes: &[u8]) {
    let loaded = FileFidelity::capture(bytes).expect("valid UTF-8");
    let written = loaded.fidelity.serialize(&loaded.text);
    assert_eq!(written, bytes, "round trip changed the file\n  in:  {bytes:?}\n  out: {written:?}");
}

#[test]
fn a_plain_lf_file_round_trips() {
    assert_round_trips(b"\\id GEN\n\\c 1\n");
}

#[test]
fn crlf_survives() {
    assert_round_trips(b"\\id GEN\r\n\\c 1\r\n");
}

#[test]
fn a_lone_cr_survives() {
    assert_round_trips(b"\\id GEN\r\\c 1\r");
}

#[test]
fn a_byte_order_mark_survives() {
    assert_round_trips(b"\xEF\xBB\xBF\\id GEN\n");
}

#[test]
fn a_missing_final_newline_stays_missing() {
    assert_round_trips(b"\\id GEN\n\\c 1");
}

#[test]
fn mixed_line_endings_are_not_silently_normalized() {
    assert_round_trips(b"\\id GEN\r\n\\c 1\n\\p\r\\v 1 text\n");
}

#[test]
fn an_empty_file_round_trips() {
    assert_round_trips(b"");
}

#[test]
fn a_file_of_only_a_byte_order_mark_round_trips() {
    assert_round_trips(b"\xEF\xBB\xBF");
}

#[test]
fn non_ascii_text_round_trips() {
    assert_round_trips("\\v 1 க்ஷேமம் שלום مرحبا \u{1D400}\r\n".as_bytes());
}

#[test]
fn the_envelope_is_read_correctly() {
    let loaded = FileFidelity::capture(b"\xEF\xBB\xBF\\id GEN\r\n\\c 1\r\n").unwrap();

    assert!(loaded.fidelity.bom);
    assert_eq!(loaded.fidelity.eol, LineEndings::Uniform(Eol::Crlf));
    assert!(loaded.fidelity.final_newline);
    assert_eq!(loaded.text, "\\id GEN\n\\c 1\n");
}

#[test]
fn mixed_endings_are_detected_with_a_dominant() {
    let loaded = FileFidelity::capture(b"a\r\nb\r\nc\n").unwrap();

    assert!(loaded.fidelity.eol.is_mixed());
    assert_eq!(loaded.fidelity.eol.dominant(), Eol::Crlf);
    assert_eq!(loaded.text, "a\nb\nc\n");
}

#[test]
fn the_editor_only_ever_sees_line_feeds() {
    let loaded = FileFidelity::capture(b"a\r\nb\rc\n").unwrap();
    assert!(!loaded.text.contains('\r'));
}

#[test]
fn invalid_utf8_is_refused_rather_than_mangled() {
    let error = FileFidelity::capture(b"\\id GEN\n\xFF\xFE bad\n").unwrap_err();
    assert!(matches!(error, DecodeError::NotUtf8 { offset: 8 }), "{error:?}");
}

#[test]
fn the_hash_identifies_the_exact_bytes() {
    let bytes = b"\\id GEN\r\n";
    let loaded = FileFidelity::capture(bytes).unwrap();

    assert!(loaded.fidelity.matches(bytes));
    assert!(!loaded.fidelity.matches(b"\\id GEN\n"));
}

#[test]
fn editing_away_the_final_newline_is_respected() {
    let loaded = FileFidelity::capture(b"a\r\nb\r\n").unwrap();
    assert_eq!(loaded.fidelity.serialize("a\nb"), b"a\r\nb");
}

#[test]
fn a_line_added_beyond_the_original_takes_the_dominant_terminator() {
    let loaded = FileFidelity::capture(b"a\r\nb\r\n").unwrap();
    assert_eq!(loaded.fidelity.serialize("a\nb\nc\n"), b"a\r\nb\r\nc\r\n");
}

#[test]
fn a_bad_byte_after_a_byte_order_mark_counts_the_mark() {
    let error = FileFidelity::capture(b"\xEF\xBB\xBFab\xFF").unwrap_err();
    assert_eq!(error, DecodeError::NotUtf8 { offset: 5 });
    assert_eq!(
        error.to_string(),
        "not valid UTF-8 at byte 5; USFM files are UTF-8, and opening this one would mean changing it"
    );
}

#[test]
fn line_endings_are_named_for_the_status_bar() {
    assert_eq!(Eol::Crlf.label(), "CRLF");
    assert_eq!(Eol::Cr.as_str(), "\r");
    assert_eq!(FileFidelity::capture(b"a\r\nb\n").unwrap().fidelity.eol.to_string(), "Mixed (CRLF)");
    assert_eq!(FileFidelity::capture(b"a").unwrap().fidelity.eol.to_string(), "LF");
    let mixed = FileFidelity::capture(b"a\rb\rc\n").unwrap();
    assert_eq!(mixed.fidelity.eol.dominant(), Eol::Cr);
    assert_eq!(mixed.fidelity.len, 6);
}

#[test]
fn a_new_document_saves_with_line_feeds() {
    let bytes = encode_file("\\id GEN\n\\c 1\n", false, Vec::new());
    assert_eq!(bytes, b"\\id GEN\n\\c 1\n".to_vec());
}

#[test]
fn recorded_terminators_are_put_back_line_by_line() {
    assert_eq!(endings_of(vec![Eol::Crlf, Eol::Crlf]), LineEndings::Uniform(Eol::Crlf));
    assert_eq!(
        endings_of(vec![Eol::Cr, Eol::Lf]),
        LineEndings::Mixed { per_line: vec![Eol::Cr, Eol::Lf], dominant: Eol::Cr }
    );
    let bytes = encode_file("a\nb\nc\nd", true, vec![Eol::Crlf, Eol::Lf]);
    assert_eq!(bytes, b"\xEF\xBB\xBFa\r\nb\nc\r\nd".to_vec());
}
