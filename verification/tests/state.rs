use shitmail_jmap_filter::state::{contents_or, PersistedState, StateFile, StateStore};

#[test]
fn stored_state_is_read_back() {
    let mut store = StateStore::load(StateFile::Missing).ok().unwrap();
    assert_eq!(store.email_state(), None);
    let snapshot = store.set_email_state("s1".to_string());
    assert_eq!(store.email_state().as_deref(), Some("s1"));
    assert_eq!(snapshot.email_state.as_deref(), Some("s1"));
    store.set_email_state("s2".to_string());
    assert_eq!(store.email_state().as_deref(), Some("s2"));

    let again = StateStore::load(StateFile::Parsed(snapshot)).ok().unwrap();
    assert_eq!(again.email_state().as_deref(), Some("s1"));
}

#[test]
fn state_file_that_cannot_be_used() {
    assert_eq!(StateStore::load(StateFile::Malformed).ok().unwrap().email_state(), None);
    let e = StateStore::load(StateFile::Unreadable("io".into())).err().unwrap();
    assert_eq!(e.context, "reading state file");
    assert_eq!(e.reason, "io");
}

#[test]
fn state_is_empty_by_default() {
    assert_eq!(PersistedState::default().email_state, None);
    let s = PersistedState { email_state: Some("x".to_string()) };
    assert_eq!(s.clone().email_state, s.email_state);
}

#[test]
fn contents_of_a_file_or_nothing() {
    assert_eq!(contents_or(StateFile::Parsed(3), 0, "c").ok(), Some(3));
    assert_eq!(contents_or(StateFile::Malformed, 0, "c").ok(), Some(0));
    assert_eq!(contents_or(StateFile::Missing, 0, "c").ok(), Some(0));
    assert_eq!(contents_or(StateFile::Unreadable("r".into()), 0, "c").err().map(|e| e.context), Some("c".to_string()));
}
