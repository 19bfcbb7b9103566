use shitmail_jmap_filter::push::{
    on_start, on_state_change, start_step, ChangedType, PushStep, Reconnect, StartStep, Sweep, SweepStep, WorkItem,
};
use shitmail_jmap_filter::state::{PersistedState, StateFile, StateStore};

fn store(state: Option<&str>) -> StateStore {
    let held = PersistedState { email_state: state.map(|s| s.to_string()) };
    StateStore::load(StateFile::Parsed(held)).ok().unwrap()
}

fn change(kind: ChangedType, state: &str) -> (ChangedType, String) {
    (kind, state.to_string())
}

fn sweep(ids: &[&str], new_state: &str) -> Sweep {
    Sweep::new(ids.iter().map(|s| s.to_string()).collect(), new_state.to_string())
}

fn text(step: SweepStep) -> String {
    match step {
        SweepStep::Dispatch(WorkItem::Process(id)) => format!("dispatch {}", id),
        SweepStep::Commit(state) => format!("commit {}", state.email_state.unwrap()),
        SweepStep::Stop => "stop".to_string(),
    }
}

#[test]
fn waits_double_up_to_thirty_seconds() {
    let mut r = Reconnect::new();
    let waits: Vec<u64> = (0..8).map(|_| r.wait_secs()).collect();
    assert_eq!(waits, vec![1, 2, 4, 8, 16, 30, 30, 30]);
}

#[test]
fn changes_without_mail_are_ignored() {
    let mut s = store(Some("old"));
    assert!(matches!(on_state_change(vec![], &mut s), PushStep::Ignore));
    assert!(matches!(on_state_change(vec![change(ChangedType::Other, "x")], &mut s), PushStep::Ignore));
    assert_eq!(s.email_state().as_deref(), Some("old"));
}

#[test]
fn first_state_is_stored() {
    let mut s = store(None);
    let changes = vec![change(ChangedType::Other, "m"), change(ChangedType::Email, "e1"), change(ChangedType::Email, "e2")];
    match on_state_change(changes, &mut s) {
        PushStep::Persist(p) => assert_eq!(p.email_state.as_deref(), Some("e1")),
        _ => panic!("the state has to be stored"),
    }
    assert_eq!(s.email_state().as_deref(), Some("e1"));
}

#[test]
fn later_states_ask_for_a_sweep() {
    let mut s = store(Some("old"));
    match on_state_change(vec![change(ChangedType::Email, "new")], &mut s) {
        PushStep::Sweep { since, new_state } => {
            assert_eq!(since, "old");
            assert_eq!(new_state, "new");
        }
        _ => panic!("a sweep is due"),
    }
    assert_eq!(s.email_state().as_deref(), Some("old"));
}

#[test]
fn sweep_hands_on_all_messages_before_it_commits() {
    let mut s = store(Some("old"));
    let mut w = sweep(&["a", "b"], "new");
    assert_eq!(text(w.step(&mut s)), "dispatch a");
    w.report(true);
    assert_eq!(text(w.step(&mut s)), "dispatch b");
    assert_eq!(s.email_state().as_deref(), Some("old"));
    w.report(true);
    assert_eq!(text(w.step(&mut s)), "commit new");
    assert_eq!(s.email_state().as_deref(), Some("new"));
    w.report(false);
    assert_eq!(text(w.step(&mut s)), "commit new");
}

#[test]
fn refused_message_stops_the_sweep() {
    let mut s = store(Some("old"));
    let mut w = sweep(&["a", "b"], "new");
    w.report(true);
    w.report(false);
    assert_eq!(text(w.step(&mut s)), "stop");
    w.report(true);
    assert_eq!(text(w.step(&mut s)), "stop");
    assert_eq!(s.email_state().as_deref(), Some("old"));
}

#[test]
fn empty_sweep_commits_at_once() {
    let mut s = store(Some("old"));
    assert_eq!(text(sweep(&[], "new").step(&mut s)), "commit new");
    assert_eq!(s.email_state().as_deref(), Some("new"));
}

#[test]
fn state_that_is_stored_already_is_ignored() {
    let mut s = store(Some("same"));
    assert!(matches!(on_state_change(vec![change(ChangedType::Email, "same")], &mut s), PushStep::Ignore));
    assert_eq!(s.email_state().as_deref(), Some("same"));
}

#[test]
fn earlier_run_is_caught_up_with() {
    match start_step(&store(Some("old"))) {
        StartStep::CatchUp { since } => assert_eq!(since, "old"),
        StartStep::Seed => panic!("a state is held"),
    }
    assert!(matches!(start_step(&store(None)), StartStep::Seed));
}

#[test]
fn cold_start_takes_up_the_current_state() {
    let mut s = store(None);
    let snapshot = on_start(&mut s, Some("now".to_string())).unwrap();
    assert_eq!(snapshot.email_state.as_deref(), Some("now"));
    assert_eq!(s.email_state().as_deref(), Some("now"));
}

#[test]
fn start_without_an_answer_or_with_a_state_changes_nothing() {
    let mut s = store(None);
    assert!(on_start(&mut s, None).is_none());
    assert_eq!(s.email_state(), None);
    let mut s = store(Some("old"));
    assert!(on_start(&mut s, Some("now".to_string())).is_none());
    assert!(on_start(&mut s, None).is_none());
    assert_eq!(s.email_state().as_deref(), Some("old"));
}
