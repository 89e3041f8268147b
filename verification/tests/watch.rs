use usfm_core::watch::{Verdict, Watched, EPOCHS, EPOCH_LIFETIME_MS};

fn hash(bytes: &[u8]) -> [u8; 32] {
    *blake3::hash(bytes).as_bytes()
}

const NOW: u64 = 1_000_000;

#[test]
fn the_file_we_last_read_is_not_a_change() {
    let mut watched = Watched::new(hash(b"one"));
    assert_eq!(watched.judge(Some(b"one"), NOW), Verdict::Unchanged);
}

#[test]
fn our_own_save_never_prompts() {
    let mut watched = Watched::new(hash(b"before"));
    watched.wrote(hash(b"after"), NOW);
    assert_eq!(watched.judge(Some(b"after"), NOW), Verdict::Unchanged);
}

#[test]
fn a_save_rewritten_by_something_else_is_still_ours() {
    let mut watched = Watched::new(hash(b"before"));
    watched.wrote(hash(b"ours"), NOW);
    watched.read(hash(b"interloper"));
    assert_eq!(watched.judge(Some(b"ours"), NOW), Verdict::OurOwnWrite);
}

#[test]
fn someone_elses_edit_always_prompts() {
    let mut watched = Watched::new(hash(b"ours"));
    assert_eq!(watched.judge(Some(b"theirs"), NOW), Verdict::External);
}

#[test]
fn an_epoch_is_consumed_by_the_event_it_explains() {
    let mut watched = Watched::new(hash(b"before"));
    watched.wrote(hash(b"ours"), NOW);
    watched.read(hash(b"interloper"));
    assert_eq!(watched.judge(Some(b"ours"), NOW), Verdict::OurOwnWrite);
    watched.read(hash(b"something else"));
    assert_eq!(watched.judge(Some(b"ours"), NOW), Verdict::External);
}

#[test]
fn an_old_write_stops_explaining_anything() {
    let mut watched = Watched::new(hash(b"before"));
    watched.wrote(hash(b"ours"), NOW);
    watched.read(hash(b"something else"));
    let much_later = NOW + EPOCH_LIFETIME_MS + 1000;
    assert_eq!(watched.judge(Some(b"ours"), much_later), Verdict::External);
}

#[test]
fn only_a_few_writes_are_remembered() {
    let mut watched = Watched::new(hash(b"start"));
    for round in 0..EPOCHS + 4 {
        watched.wrote(hash(format!("save {round}").as_bytes()), NOW);
    }
    watched.read(hash(b"something else"));
    assert_eq!(watched.judge(Some(b"save 0"), NOW), Verdict::External, "an old save should no longer explain an event");
    assert_eq!(watched.judge(Some(format!("save {}", EPOCHS + 3).as_bytes()), NOW), Verdict::OurOwnWrite);
}

#[test]
fn a_deleted_file_is_its_own_outcome() {
    let mut watched = Watched::new(hash(b"anything"));
    assert_eq!(watched.judge(None, NOW), Verdict::Gone);
}

#[test]
fn a_reported_change_becomes_what_we_believe() {
    let mut watched = Watched::new(hash(b"ours"));
    assert_eq!(watched.judge(Some(b"theirs"), NOW), Verdict::External);
    assert_eq!(watched.judge(Some(b"theirs"), NOW), Verdict::Unchanged);
}

#[test]
fn a_save_stamped_after_the_event_still_explains_it() {
    // a clock read before the save's own stamp: the save counts as just made
    let mut watched = Watched::new(hash(b"before"));
    watched.wrote(hash(b"ours"), NOW);
    watched.read(hash(b"other"));
    assert_eq!(watched.judge(Some(b"ours"), NOW - 5), Verdict::OurOwnWrite);
}

#[test]
fn a_save_just_inside_its_lifetime_still_counts() {
    let mut watched = Watched::new(hash(b"before"));
    watched.wrote(hash(b"ours"), NOW);
    watched.read(hash(b"other"));
    assert_eq!(watched.judge(Some(b"ours"), NOW + EPOCH_LIFETIME_MS - 1), Verdict::OurOwnWrite);
    let mut later = Watched::new(hash(b"before"));
    later.wrote(hash(b"ours"), NOW);
    later.read(hash(b"other"));
    assert_eq!(later.judge(Some(b"ours"), NOW + EPOCH_LIFETIME_MS), Verdict::External);
}

#[test]
fn only_external_changes_and_deletions_are_reported() {
    let mut watched = Watched::new(hash(b"before"));
    watched.wrote(hash(b"ours"), NOW);
    assert_eq!(watched.event(Some(b"ours"), NOW), None);
    watched.read(hash(b"interloper"));
    assert_eq!(watched.event(Some(b"ours"), NOW), None);
    assert_eq!(watched.event(Some(b"theirs"), NOW), Some("external"));
    assert_eq!(watched.event(Some(b"theirs"), NOW), None);
    assert_eq!(watched.event(None, NOW), Some("gone"));
}
