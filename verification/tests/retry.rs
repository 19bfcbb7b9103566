use shitmail_jmap_filter::retry::{backoff_after, RetryEntry, RetryQueue};
use shitmail_jmap_filter::state::StateFile;
use shitmail_jmap_filter::time::{Interval, Timestamp};

fn at(secs: i64) -> Timestamp {
    Timestamp::new(secs, 0).unwrap()
}

fn fresh_queue() -> RetryQueue {
    match RetryQueue::load(StateFile::Missing, Interval::from_secs(900), 4) {
        Ok(q) => q,
        Err(_) => panic!("a missing file is no error"),
    }
}

fn entry(id: &str, attempts: u32, due: i64) -> RetryEntry {
    RetryEntry {
        id: id.to_string(),
        registrable_domain: "example.com".to_string(),
        first_seen_at: at(0),
        attempts,
        next_attempt_at: at(due),
        last_error: None,
    }
}

fn ids(entries: &[RetryEntry]) -> Vec<&str> {
    entries.iter().map(|e| e.id.as_str()).collect()
}

const FOREVER: i64 = 8_000_000_000_000;

#[test]
fn enqueue_and_due() {
    let mut q = fresh_queue();
    q.enqueue("a".into(), "example.com".into(), "boom".into(), at(1_000_000));
    // It was just put in: the next attempt is in the future, so it is not due.
    assert_eq!(q.due(at(1_000_000)).len(), 0);
}

#[test]
fn bump_exhausts_after_max() {
    let mut q = fresh_queue();
    let now = at(1_000_000);
    q.enqueue("a".into(), "example.com".into(), "boom".into(), now);
    assert!(!q.bump("a", "still boom".into(), now)); // 1
    assert!(!q.bump("a", "still boom".into(), now)); // 2
    assert!(!q.bump("a", "still boom".into(), now)); // 3
    let exhausted = q.bump("a", "still boom".into(), now); // 4 == max
    assert!(exhausted);
    assert_eq!(q.due(now).len(), 0);
    assert_eq!(q.due(at(FOREVER)).len(), 0);
}

#[test]
fn remove_drops_entry() {
    let mut q = fresh_queue();
    q.enqueue("a".into(), "example.com".into(), "boom".into(), at(1_000_000));
    assert!(q.remove("a"));
    assert_eq!(q.due(at(1_000_000)).len(), 0);
    assert_eq!(q.due(at(FOREVER)).len(), 0);
    assert!(!q.remove("a"));
}

#[test]
fn entry_is_due_exactly_after_the_interval() {
    let mut q = fresh_queue();
    q.enqueue("a".into(), "example.com".into(), "boom".into(), at(100));
    assert_eq!(q.due(at(999)).len(), 0);
    let due = q.due(at(1000));
    assert_eq!(due.len(), 1);
    assert_eq!(due[0].id, "a");
    assert_eq!(due[0].registrable_domain, "example.com");
    assert_eq!(due[0].first_seen_at, at(100));
    assert_eq!(due[0].next_attempt_at, at(1000));
    assert_eq!(due[0].attempts, 0);
    assert_eq!(due[0].last_error.as_deref(), Some("boom"));
}

#[test]
fn enqueue_replaces_what_waited_under_the_id() {
    let mut q = fresh_queue();
    q.enqueue("a".into(), "one.com".into(), "x".into(), at(0));
    q.enqueue("b".into(), "two.com".into(), "x".into(), at(0));
    q.enqueue("a".into(), "three.com".into(), "y".into(), at(5));
    let all = q.due(at(FOREVER));
    assert_eq!(ids(&all), vec!["b", "a"]);
    assert_eq!(all[1].registrable_domain, "three.com");
    assert_eq!(all[1].last_error.as_deref(), Some("y"));
}

#[test]
fn bump_doubles_the_wait_and_leaves_others_alone() {
    let mut q = fresh_queue();
    q.enqueue("a".into(), "one.com".into(), "x".into(), at(0));
    q.enqueue("b".into(), "two.com".into(), "x".into(), at(0));
    assert!(!q.bump("a", "again".into(), at(1000)));
    let all = q.due(at(FOREVER));
    assert_eq!(ids(&all), vec!["a", "b"]);
    assert_eq!(all[0].attempts, 1);
    assert_eq!(all[0].next_attempt_at, at(1000 + 2 * 900));
    assert_eq!(all[0].last_error.as_deref(), Some("again"));
    assert_eq!(all[0].first_seen_at, at(0));
    assert_eq!(all[1].attempts, 0);
    assert_eq!(all[1].next_attempt_at, at(900));
}

#[test]
fn bump_of_an_unknown_message_does_nothing() {
    let mut q = fresh_queue();
    assert!(q.can_bump("nobody", at(0)));
    assert!(!q.bump("nobody", "x".into(), at(0)));
    assert!(q.take_snapshot().is_none());
}

#[test]
fn backoff_doubles_up_to_six_hours() {
    let base = Interval::from_secs(900);
    let secs: Vec<u64> = (0..8).map(|n| backoff_after(&base, n).as_secs()).collect();
    assert_eq!(secs, vec![900, 1800, 3600, 7200, 14_400, 21_600, 21_600, 21_600]);
    assert_eq!(backoff_after(&Interval::from_secs(u64::MAX), 3).as_secs(), 21_600);
    assert_eq!(backoff_after(&Interval::from_secs(0), 9).as_secs(), 0);
}

#[test]
fn backoff_stops_doubling_after_sixteen_attempts() {
    let base = Interval::new(0, 1000).unwrap();
    assert_eq!(backoff_after(&base, 16).as_nanos(), 65_536_000);
    assert_eq!(backoff_after(&base, 17).as_nanos(), 65_536_000);
    assert_eq!(backoff_after(&base, u32::MAX).as_nanos(), 65_536_000);
}

#[test]
fn limits_are_known_beforehand() {
    let last = at(8_210_266_876_799);
    let q = fresh_queue();
    assert!(q.can_enqueue(at(0)));
    assert!(!q.can_enqueue(last));
    let q = RetryQueue::load(
        StateFile::Parsed(vec![entry("full", u32::MAX, 0), entry("late", 0, 0), entry("last", 3, 0)]),
        Interval::from_secs(900),
        4,
    )
    .ok()
    .unwrap();
    assert!(!q.can_bump("full", at(0)));
    assert!(q.can_bump("late", at(0)));
    assert!(!q.can_bump("late", last));
    assert!(q.can_bump("last", last));
}

#[test]
fn one_attempt_is_the_least() {
    for max in [0, 1] {
        let mut q = RetryQueue::load(StateFile::Missing, Interval::from_secs(900), max).ok().unwrap();
        q.enqueue("a".into(), "example.com".into(), "boom".into(), at(0));
        assert!(q.bump("a", "x".into(), at(0)));
    }
}

#[test]
fn snapshot_holds_the_queue_when_it_changed() {
    let mut q = fresh_queue();
    assert!(q.take_snapshot().is_none());
    q.enqueue("a".into(), "example.com".into(), "boom".into(), at(0));
    let snapshot = q.take_snapshot().unwrap();
    assert_eq!(ids(&snapshot), vec!["a"]);
    assert!(q.take_snapshot().is_none());
    q.remove("b");
    assert!(q.take_snapshot().is_none());
    q.remove("a");
    assert_eq!(q.take_snapshot().unwrap().len(), 0);

    let again = RetryQueue::load(StateFile::Parsed(snapshot), Interval::from_secs(900), 4).ok().unwrap();
    assert_eq!(again.due(at(FOREVER))[0].last_error.as_deref(), Some("boom"));
}

#[test]
fn queue_file_that_cannot_be_used() {
    let q = RetryQueue::load(StateFile::Malformed, Interval::from_secs(1), 1).ok().unwrap();
    assert_eq!(q.due(at(FOREVER)).len(), 0);
    let e = RetryQueue::load(StateFile::Unreadable("no".into()), Interval::from_secs(1), 1).err().unwrap();
    assert_eq!(e.context, "reading retry queue");
    assert_eq!(e.reason, "no");
}
