use shitmail_jmap_filter::domain::cache::{AgeCache, CacheEntry};
use shitmail_jmap_filter::state::StateFile;
use shitmail_jmap_filter::time::Timestamp;

fn at(secs: i64) -> Timestamp {
    Timestamp::new(secs, 0).unwrap()
}

fn found(fetched: i64) -> CacheEntry {
    CacheEntry { registered: Some(at(7)), fetched_at: at(fetched), error: None }
}

fn failed(fetched: i64) -> CacheEntry {
    CacheEntry { registered: None, fetched_at: at(fetched), error: Some("boom".to_string()) }
}

fn empty() -> AgeCache {
    AgeCache::load(StateFile::Missing).ok().unwrap()
}

const MONTH: i64 = 30 * 86_400;

#[test]
fn found_dates_are_good_for_thirty_days() {
    assert!(found(1000).is_fresh(at(1000)));
    assert!(found(1000).is_fresh(at(1000 + MONTH)));
    assert!(!found(1000).is_fresh(at(1000 + MONTH + 1)));
    assert!(!found(1000).is_fresh(Timestamp::new(1000 + MONTH, 1).unwrap()));
    assert!(found(1000).is_fresh(at(-5000)));
}

#[test]
fn failures_are_good_for_an_hour() {
    assert!(failed(1000).is_fresh(at(4600)));
    assert!(!failed(1000).is_fresh(at(4601)));
    let neither = CacheEntry { registered: None, fetched_at: at(0), error: None };
    assert!(neither.is_fresh(at(MONTH)));
    assert!(!neither.is_fresh(at(MONTH + 1)));
}

#[test]
fn only_fresh_entries_are_given() {
    let mut cache = empty();
    assert!(cache.get("a.com", at(0)).is_none());
    cache.put("a.com", found(0));
    cache.put("b.com", failed(0));
    assert_eq!(cache.get("a.com", at(MONTH)).unwrap().registered, Some(at(7)));
    assert!(cache.get("a.com", at(MONTH + 1)).is_none());
    assert_eq!(cache.get("b.com", at(3600)).unwrap().error.as_deref(), Some("boom"));
    assert!(cache.get("b.com", at(3601)).is_none());
    assert!(cache.get("A.com", at(0)).is_none());
}

#[test]
fn later_entry_replaces_the_earlier_one() {
    let mut cache = empty();
    cache.put("a.com", failed(0));
    cache.put("a.com", found(0));
    assert!(cache.get("a.com", at(0)).unwrap().error.is_none());
    assert_eq!(cache.flush().unwrap().len(), 1);
}

#[test]
fn flush_gives_what_is_not_written_yet() {
    let mut cache = empty();
    assert!(cache.flush().is_none());
    cache.put("a.com", found(3));
    cache.put("b.com", failed(4));
    let list = cache.flush().unwrap();
    assert!(cache.flush().is_none());

    let mut again = AgeCache::load(StateFile::Parsed(list)).ok().unwrap();
    assert!(again.flush().is_none());
    assert_eq!(again.get("a.com", at(3)).unwrap().fetched_at, at(3));
    assert_eq!(again.get("b.com", at(4)).unwrap().error.as_deref(), Some("boom"));
}

#[test]
fn cache_file_that_cannot_be_used() {
    assert!(AgeCache::load(StateFile::Malformed).ok().unwrap().get("a.com", at(0)).is_none());
    let e = AgeCache::load(StateFile::Unreadable("denied".into())).err().unwrap();
    assert_eq!(e.context, "reading rdap-cache.json");
    assert_eq!(e.reason, "denied");
}
