use launcher::descriptor::parse_entry;
use launcher::entry::Entry;
use launcher::handoff::{is_accept, Handoff};
use launcher::index::CandidateIndex;
use launcher::rank::best;

fn with_command(command: &str) -> Entry {
    Entry::new(Some("App".to_string()), Some(command.to_string()), None, None).unwrap()
}

#[test]
fn commit_with_an_empty_index_launches_nothing() {
    let index = CandidateIndex::new();
    let ranking = index.rank("");
    assert_eq!(best(&ranking), None);
    let top = index.top(&ranking);
    assert!(top.is_none());
    let mut handoff = Handoff::new();
    assert_eq!(handoff.commit(true, top), None);
    assert!(!handoff.is_spent());
}

#[test]
fn commit_without_a_match_launches_nothing() {
    let mut index = CandidateIndex::new();
    index.ingest(with_command("firefox"));
    let ranking = index.rank("zzz");
    let top = index.top(&ranking);
    let mut handoff = Handoff::new();
    assert_eq!(handoff.commit(true, top), None);
    assert!(!handoff.is_spent());
}

#[test]
fn commit_hands_over_the_command_of_the_top_match() {
    let mut index = CandidateIndex::new();
    index.ingest(parse_entry("Name=Firefox\nComment=Browse the web\nExec=firefox %u\n").unwrap());
    index.ingest(parse_entry("Name=Files\nExec=nautilus\n").unwrap());
    let ranking = index.rank("fire");
    let top = index.top(&ranking);
    assert_eq!(top, best(&ranking).and_then(|found| index.entry_at(found.slot)));
    let mut handoff = Handoff::new();
    assert_eq!(handoff.commit(true, top), Some("firefox %u".to_string()));
    assert!(handoff.is_spent());
}

#[test]
fn commit_on_a_match_without_command_launches_nothing() {
    let entry = Entry::new(Some("No command".to_string()), None, Some("icon".to_string()), None).unwrap();
    let mut handoff = Handoff::new();
    assert_eq!(handoff.commit(true, Some(&entry)), None);
    assert!(!handoff.is_spent());
}

#[test]
fn commit_on_an_empty_command_launches_nothing() {
    let entry = with_command("");
    let mut handoff = Handoff::new();
    assert_eq!(handoff.commit(true, Some(&entry)), None);
    assert!(!handoff.is_spent());
}

#[test]
fn a_cycle_that_is_not_accepted_launches_nothing() {
    let entry = with_command("firefox");
    let mut handoff = Handoff::new();
    assert_eq!(handoff.commit(false, Some(&entry)), None);
    assert!(!handoff.is_spent());
    assert_eq!(handoff.commit(true, Some(&entry)), Some("firefox".to_string()));
}

#[test]
fn at_most_one_command_is_handed_over() {
    let first = with_command("first");
    let second = with_command("second");
    let mut handoff = Handoff::new();
    let mut handed = Vec::new();
    for turn in 0..10 {
        let top = if turn % 2 == 0 { &first } else { &second };
        if let Some(command) = handoff.commit(turn >= 3, Some(top)) {
            handed.push(command);
        }
    }
    assert_eq!(handed, ["second"]);
    assert!(handoff.is_spent());
    assert_eq!(handoff.commit(true, Some(&first)), None);
}

#[test]
fn accept_is_a_lost_focus_that_was_not_cancelled() {
    assert!(is_accept(true, false));
    assert!(!is_accept(true, true));
    assert!(!is_accept(false, false));
    assert!(!is_accept(false, true));
}
