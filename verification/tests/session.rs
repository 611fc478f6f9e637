use launcher::descriptor::parse_entry;
use launcher::entry::Entry;
use launcher::session::Session;
use std::sync::mpsc::channel;

fn app(name: &str, command: &str) -> Entry {
    Entry::new(Some(name.to_string()), Some(command.to_string()), None, None).unwrap()
}

#[test]
fn a_new_session_is_empty_and_unspent() {
    let session = Session::new();
    assert!(session.index().is_empty());
    assert!(!session.is_spent());
}

#[test]
fn a_commit_before_discovery_launches_nothing() {
    let (_sender, receiver) = channel::<Entry>();
    let mut session = Session::new();
    let outcome = session.update(&receiver, "", true);
    assert_eq!(outcome.taken, 0);
    assert!(outcome.ranking.is_empty());
    assert_eq!(outcome.command, None);
    assert!(!session.is_spent());
}

#[test]
fn a_cycle_takes_in_ranks_and_commits() {
    let (sender, receiver) = channel::<Entry>();
    sender.send(parse_entry("Name=Firefox\nComment=Browse the web\nExec=firefox %u\n").unwrap()).unwrap();
    sender.send(app("Files", "nautilus")).unwrap();
    sender.send(app("Terminal", "kgx")).unwrap();
    let mut session = Session::new();

    let outcome = session.update(&receiver, "fire", false);
    assert_eq!(outcome.taken, 3);
    assert_eq!(session.index().len(), 3);
    assert_eq!(outcome.ranking.len(), 1);
    assert_eq!(session.index().key_at(outcome.ranking[0].slot).unwrap(), "Firefox|Browse the web");
    assert_eq!(outcome.command, None);

    let outcome = session.update(&receiver, "fire", true);
    assert_eq!(outcome.taken, 0);
    assert_eq!(outcome.command, Some("firefox %u".to_string()));
    assert!(session.is_spent());
}

#[test]
fn a_session_hands_over_one_command_at_most() {
    let (sender, receiver) = channel::<Entry>();
    sender.send(app("Files", "nautilus")).unwrap();
    sender.send(app("Terminal", "kgx")).unwrap();
    let mut session = Session::new();
    let mut handed = Vec::new();
    for query in ["f", "t", "f", "", "t"] {
        if let Some(command) = session.update(&receiver, query, true).command {
            handed.push(command);
        }
    }
    assert_eq!(handed, ["nautilus"]);
}

#[test]
fn a_cycle_ranks_what_it_has_just_taken_in() {
    let (sender, receiver) = channel::<Entry>();
    let mut session = Session::new();
    for turn in 0..70 {
        sender.send(app(&format!("app {:02}", turn), "run")).unwrap();
    }
    let outcome = session.update(&receiver, "app", false);
    assert_eq!(outcome.taken, 60);
    assert_eq!(outcome.ranking.len(), 60);
    let outcome = session.update(&receiver, "app 6", false);
    assert_eq!(outcome.taken, 10);
    assert_eq!(session.index().len(), 70);
    assert_eq!(outcome.ranking.len(), 16);
}

#[test]
fn a_commit_on_a_query_without_match_launches_nothing() {
    let (sender, receiver) = channel::<Entry>();
    sender.send(app("Files", "nautilus")).unwrap();
    let mut session = Session::new();
    let outcome = session.update(&receiver, "zzz", true);
    assert_eq!(outcome.taken, 1);
    assert_eq!(outcome.command, None);
    assert!(!session.is_spent());
    let outcome = session.update(&receiver, "fil", true);
    assert_eq!(outcome.command, Some("nautilus".to_string()));
}
