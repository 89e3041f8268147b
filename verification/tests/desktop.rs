use usfm_core::document::{apply_terminators, is_usfm, reason_label, terminators, Summary};
use usfm_core::{Eol, FileFidelity, LineEndings};
use usfm_core::lock::{read_lock, settle, Held, Owner, Reading};
use usfm_core::reopen::{examine, Newest};
use usfm_core::recovery::{directory_name, is_stale, key, older_than, parse_generation, to_drop, to_prune, PRUNE_AFTER_MS};
use usfm_core::save::{blame, copy_back_next, copy_back_start, Blame, CopyNext, CopyStep, plan, sidecar_name, steps_down, temp_name, under_sync_root, CopyBackReason, Plan, RungOneFailure};
use usfm_core::updates::{gate, Consent, Outcome};

#[test]
fn usfm_files_are_recognised_in_either_case() {
    assert!(is_usfm("gen.usfm"));
    assert!(is_usfm("01GENBSB.SFM"));
    assert!(!is_usfm("notes.txt"));
}

#[test]
fn the_file_name_is_what_carries_the_extension() {
    assert!(is_usfm("/books/gen.usfm"));
    assert!(is_usfm("C:\\books\\gen.Usfm"));
    assert!(is_usfm("/books/gen.usfm/"));
    assert!(is_usfm("/books/gen.usfm/."));
    assert!(!is_usfm("/books.usfm/gen"));
    assert!(!is_usfm(".usfm"));
    assert!(is_usfm("..usfm"));
    assert!(!is_usfm("gen.usfm/.."));
    assert!(!is_usfm(""));
    assert!(!is_usfm("gen.usfmx"));
}

#[test]
fn a_path_that_cannot_be_resolved_is_still_filed() {
    let asked = "/nowhere/GEN.usfm";
    assert_eq!(key(Some(asked), None, 1), asked);
}

#[test]
fn an_unsaved_document_is_filed_under_its_session() {
    assert_eq!(key(None, None, 7), "unsaved-7");
    assert_ne!(key(None, None, 7), key(None, None, 8));
}

#[test]
fn a_resolved_path_is_filed_under_its_canonical_name() {
    assert_eq!(key(Some("/books/./GEN.usfm"), Some("/books/GEN.usfm"), 1), "/books/GEN.usfm");
}

#[test]
fn the_directory_is_stable_and_short() {
    let first = directory_name("/books/GEN.usfm");
    assert_eq!(first, directory_name("/books/GEN.usfm"));
    assert_ne!(first, directory_name("/books/EXO.usfm"));
    assert_eq!(first.len(), 16);
    assert!(first.chars().all(|c| c.is_ascii_hexdigit() && !c.is_ascii_uppercase()));
    assert_eq!(first, blake3::hash(b"/books/GEN.usfm").to_hex()[..16].to_string());
}

#[test]
fn a_snapshot_from_the_future_is_not_old() {
    assert!(!older_than(2_000, 1_000, 10));
    assert!(!older_than(1_000, 1_010, 10));
    assert!(older_than(1_000, 1_011, 10));
}

#[test]
fn generations_are_named_by_their_millisecond() {
    assert_eq!(parse_generation("1700000000000"), Some(1_700_000_000_000));
    assert_eq!(parse_generation("+12"), Some(12));
    assert_eq!(parse_generation("18446744073709551615"), Some(u64::MAX));
    assert_eq!(parse_generation("18446744073709551616"), None);
    assert_eq!(parse_generation("meta.json"), None);
    assert_eq!(parse_generation(""), None);
    assert_eq!(parse_generation("+"), None);
}

#[test]
fn the_newest_generations_are_kept() {
    let names: Vec<String> = ["5", "meta", "9", "1", "7", "3"].iter().map(|s| s.to_string()).collect();
    assert_eq!(to_drop(&names, 3), vec![3, 5]);
    assert_eq!(to_drop(&names, 10), Vec::<usize>::new());
    assert_eq!(to_drop(&names, 0), vec![0, 2, 3, 4, 5]);
}

#[test]
fn a_document_untouched_for_a_month_is_forgotten() {
    let names: Vec<String> = vec!["1000".to_string(), "junk".to_string(), "5000".to_string()];
    assert!(!is_stale(&names, 5000 + PRUNE_AFTER_MS));
    assert!(is_stale(&names, 5001 + PRUNE_AFTER_MS));
    assert!(is_stale(&vec!["junk".to_string()], 0));
    assert!(is_stale(&Vec::new(), 0));
}

#[test]
fn sync_roots_are_recognised_by_directory_name() {
    assert!(under_sync_root("/home/x/Dropbox/gen.usfm"));
    assert!(under_sync_root("/Users/x/Library/CloudStorage/a.usfm"));
    assert!(under_sync_root("/home/x/OneDrive/gen.usfm"));
    assert!(under_sync_root("/home/x/OneDrive - Acme/gen.usfm"));
}

#[test]
fn an_ordinary_path_is_not_a_sync_root() {
    assert!(!under_sync_root("/home/x/translations/gen.usfm"));
    assert!(!under_sync_root("/home/x/my-dropbox-notes/gen.usfm"));
}

#[test]
fn windows_separators_count_too() {
    assert!(under_sync_root("C:/Users/x/Dropbox/gen.usfm"));
    assert!(under_sync_root("C:\\Users\\x\\Google Drive\\gen.usfm"));
    assert!(!under_sync_root("C:\\Users\\x\\Dropboxes\\gen.usfm"));
}

#[test]
fn the_temp_file_is_beside_its_target() {
    let temp = temp_name(Some("gen.usfm"), 4242, 0xbeef);
    assert!(temp.starts_with(".gen.usfm."));
    assert_eq!(temp, ".gen.usfm.4242.beef.tmp");
    assert_eq!(temp_name(None, 1, 0), ".document.1.0.tmp");
}

#[test]
fn the_sidecar_is_beside_its_target() {
    let sidecar = sidecar_name(Some("gen.usfm"), 1_700_000_000);
    assert!(sidecar.starts_with("gen.usfm.bak-"));
    assert_eq!(sidecar, "gen.usfm.bak-1700000000");
    assert_eq!(sidecar_name(None, 5), "document.bak-5");
}

#[test]
fn the_ladder_picks_its_rung() {
    assert_eq!(plan(true, 5, true), Plan::ReadOnly);
    assert_eq!(plan(false, 2, true), Plan::CopyBack(CopyBackReason::HardLinked));
    assert_eq!(plan(false, 1, true), Plan::CopyBack(CopyBackReason::SyncRoot));
    assert_eq!(plan(false, 1, false), Plan::Rename);
    assert!(steps_down(RungOneFailure::Replace, true));
    assert!(!steps_down(RungOneFailure::Replace, false));
    assert!(!steps_down(RungOneFailure::Write, true));
    assert!(!steps_down(RungOneFailure::Sync, true));
}

fn owner(pid: u32, started_at: u64, host: &str) -> Owner {
    Owner { pid, started_at, host: host.to_string(), app_version: "0.1.0".to_string() }
}

#[test]
fn a_lock_is_read_for_what_it_says() {
    let us = owner(10, 100, "desk");
    assert_eq!(read_lock(None, &us), Reading::Settled(Held::Free));
    assert_eq!(read_lock(Some(owner(10, 100, "desk")), &us), Reading::Settled(Held::Ours));
    // a recycled pid is not us
    assert_eq!(read_lock(Some(owner(10, 99, "desk")), &us), Reading::AskIfAlive(owner(10, 99, "desk")));
    // another machine's pid means nothing here
    assert_eq!(
        read_lock(Some(owner(11, 100, "laptop")), &us),
        Reading::Settled(Held::Crashed { owner: owner(11, 100, "laptop") })
    );
    assert_eq!(settle(owner(11, 1, "desk"), true), Held::Foreign { owner: owner(11, 1, "desk") });
    assert_eq!(settle(owner(11, 1, "desk"), false), Held::Crashed { owner: owner(11, 1, "desk") });
}

#[test]
fn never_having_asked_is_not_consent() {
    assert_ne!(Consent::Unasked, Consent::Allowed);
    assert_ne!(Consent::Refused, Consent::Allowed);
}

#[test]
fn nothing_is_sent_without_consent() {
    for consent in [Consent::Unasked, Consent::Refused] {
        assert_eq!(gate(true, consent), Some(Outcome::NotPermitted { consent }));
    }
    assert_eq!(gate(true, Consent::Allowed), None);
}

#[test]
fn the_offline_build_says_so_rather_than_failing() {
    assert_eq!(gate(false, Consent::Allowed), Some(Outcome::CompiledOut));
}

fn newest(dirty: bool) -> Newest {
    Newest { taken_at: 5_000, dirty, cursor: 12, text: "\\id GEN\n\\c 1\n".to_string() }
}

#[test]
fn a_crash_with_unsaved_work_is_offered_with_its_count() {
    let seen = examine(Held::Crashed { owner: owner(7, 1, "desk") }, Some(newest(true)), 2);
    let offer = seen.recovery.expect("the work is offered");
    assert_eq!((offer.taken_at, offer.lines_differing, offer.cursor), (5_000, 2, 12));
    assert_eq!(offer.text, "\\id GEN\n\\c 1\n");
    assert_eq!(examine(Held::Free, Some(newest(true)), 1).recovery.map(|r| r.lines_differing), Some(1));
}

#[test]
fn nothing_is_offered_that_is_saved_identical_or_someone_elses() {
    assert!(examine(Held::Free, None, 3).recovery.is_none());
    assert!(examine(Held::Free, Some(newest(false)), 3).recovery.is_none());
    assert!(examine(Held::Crashed { owner: owner(7, 1, "desk") }, Some(newest(true)), 0).recovery.is_none());
    let foreign = examine(Held::Foreign { owner: owner(8, 1, "desk") }, Some(newest(true)), 3);
    assert!(foreign.recovery.is_none());
    assert_eq!(foreign.held, Held::Foreign { owner: owner(8, 1, "desk") });
}

#[test]
fn terminators_are_expanded_to_one_per_newline() {
    let loaded = FileFidelity::capture(b"a\r\nb\r\nc\r\n").unwrap();
    assert_eq!(terminators(&loaded.fidelity, 3), vec![Eol::Crlf; 3]);
}

#[test]
fn a_mixed_document_keeps_its_own_and_pads_with_the_dominant() {
    let loaded = FileFidelity::capture(b"a\r\nb\nc\r\n").unwrap();
    let expanded = terminators(&loaded.fidelity, 5);

    assert_eq!(&expanded[..3], &[Eol::Crlf, Eol::Lf, Eol::Crlf]);
    assert_eq!(&expanded[3..], &[Eol::Crlf, Eol::Crlf]);
}

#[test]
fn the_editors_terminators_replace_the_recorded_ones() {
    let mut fidelity = FileFidelity::capture(b"a\r\nb\r\n").unwrap().fidelity;
    apply_terminators(&mut fidelity, Vec::new());
    assert_eq!(fidelity.eol, LineEndings::Uniform(Eol::Crlf));
    apply_terminators(&mut fidelity, vec![Eol::Lf, Eol::Crlf]);
    assert_eq!(fidelity.eol, LineEndings::Mixed { per_line: vec![Eol::Lf, Eol::Crlf], dominant: Eol::Crlf });
    apply_terminators(&mut fidelity, vec![Eol::Cr, Eol::Cr]);
    assert_eq!(fidelity.eol, LineEndings::Uniform(Eol::Cr));
}

#[test]
fn the_status_bar_summarises_the_envelope() {
    let loaded = FileFidelity::capture(b"\xEF\xBB\xBFa\r\nb\nc").unwrap();
    let summary = Summary::of(&loaded.fidelity);
    assert_eq!(summary.encoding, "UTF-8");
    assert_eq!(summary.eol, "Mixed (CRLF)");
    assert!(summary.bom && summary.mixed_eol && !summary.final_newline);
    assert_eq!(reason_label(CopyBackReason::SyncRoot), "cloud folder");
    assert_eq!(reason_label(CopyBackReason::HardLinked), "linked file");
    assert_eq!(reason_label(CopyBackReason::RenameFailed), "in-place write");
}

#[test]
fn rung_two_steps_and_what_a_failure_keeps() {
    assert_eq!(copy_back_start(false), CopyStep::WriteNew);
    assert_eq!(copy_back_start(true), CopyStep::CopySidecar);
    assert_eq!(copy_back_next(CopyStep::CopySidecar, true), CopyNext::Step(CopyStep::WriteInPlace));
    assert_eq!(copy_back_next(CopyStep::CopySidecar, false), CopyNext::Failed { keep_sidecar: false });
    assert_eq!(copy_back_next(CopyStep::WriteInPlace, false), CopyNext::Failed { keep_sidecar: true });
    assert_eq!(copy_back_next(CopyStep::WriteInPlace, true), CopyNext::Saved { remove_sidecar: true });
    assert_eq!(copy_back_next(CopyStep::WriteNew, true), CopyNext::Saved { remove_sidecar: false });
    assert_eq!(blame(true), Blame::RungOne);
    assert_eq!(blame(false), Blame::CopyBack);
}

#[test]
fn prune_marks_the_directories_that_hold_nothing_recent() {
    let now = PRUNE_AFTER_MS + 10_000;
    let listings = vec![
        Some(vec!["5000".to_string(), "notes".to_string()]),
        Some(vec!["20000".to_string()]),
        Some(vec!["notes".to_string()]),
        None,
        Some(vec![(now + 1).to_string()]),
    ];
    assert_eq!(to_prune(&listings, now), vec![true, false, true, true, false]);
}
