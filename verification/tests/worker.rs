use shitmail_jmap_filter::config::{Config, Environment, UrlParts};
use shitmail_jmap_filter::domain::psl::Psl;
use shitmail_jmap_filter::domain::rdap::RdapError;
use shitmail_jmap_filter::jmap::{EmailFacts, HeaderText};
use shitmail_jmap_filter::retry::{RetryEntry, RetryQueue};
use shitmail_jmap_filter::state::StateFile;
use shitmail_jmap_filter::time::{Interval, Timestamp};
use shitmail_jmap_filter::worker::{
    domain_of_email, Assessment, Conclusion, Fetched, Recheck, Resolution, SignedMail, Worker,
};

const DAY: i64 = 86_400;
const FOREVER: i64 = 8_000_000_000_000;

fn at(secs: i64) -> Timestamp {
    Timestamp::new(secs, 0).unwrap()
}

fn worker() -> Worker {
    let env = Environment {
        fastmail_api_token: Some("token".to_string()),
        jmap_session_url: None,
        quarantine_mailbox_name: None,
        max_domain_age_days: None,
        retry_interval_min: None,
        retry_max_attempts: Some("2".to_string()),
        state_dir: None,
        psl_path: None,
        trusted_authserv_ids: None,
        healthz_port: None,
    };
    let parts = UrlParts { scheme: "https".to_string(), host: Some("h".to_string()), port: None };
    Worker {
        cfg: Config::from_parts(&env, Some(parts)).unwrap(),
        inbox_id: "inbox".to_string(),
        psl: Psl::parse("com\nuk\nco.uk"),
    }
}

fn queue() -> RetryQueue {
    let cfg = worker().cfg;
    RetryQueue::load(StateFile::Missing, cfg.retry_interval, cfg.retry_max_attempts).ok().unwrap()
}

fn facts(mailbox: &str, from: &[&str], headers: &[&str]) -> EmailFacts {
    EmailFacts::new(
        vec!["other".to_string(), mailbox.to_string()],
        Some(from.iter().map(|s| s.to_string()).collect()),
        HeaderText::All(headers.iter().map(|s| s.to_string()).collect()),
    )
}

fn signed(f: EmailFacts) -> SignedMail {
    match worker().assess(Some(f)) {
        Assessment::Signed(mail) => mail,
        _ => panic!("it is signed"),
    }
}

fn entry(queue: &RetryQueue) -> RetryEntry {
    queue.due(at(FOREVER)).pop().unwrap()
}

fn waiting_queue() -> RetryQueue {
    let mut q = queue();
    q.enqueue("id".to_string(), "stripe.com".to_string(), "boom".to_string(), at(0));
    q.enqueue("z".to_string(), "other.com".to_string(), "boom".to_string(), at(0));
    q.take_snapshot();
    q
}

fn first(queue: &RetryQueue) -> RetryEntry {
    queue.due(at(FOREVER)).swap_remove(0)
}

fn ids(queue: &RetryQueue) -> Vec<String> {
    queue.due(at(FOREVER)).into_iter().map(|e| e.id).collect()
}

#[test]
fn domain_of_an_address() {
    assert_eq!(domain_of_email("me@Example.COM").as_deref(), Some("example.com"));
    assert_eq!(domain_of_email("Me <me@example.com>").as_deref(), Some("example.com"));
    assert_eq!(domain_of_email("a@b@ c.com >>").as_deref(), Some("c.com "));
    assert_eq!(domain_of_email("@").as_deref(), Some(""));
    assert_eq!(domain_of_email("nobody"), None);
    assert_eq!(domain_of_email(""), None);
}

#[test]
fn only_mail_in_the_inbox_is_looked_at() {
    let w = worker();
    assert!(matches!(w.assess(None), Assessment::NotFound));
    let f = facts("archive", &["a@stripe.com"], &["mx.fastmail.com; dkim=pass header.d=stripe.com"]);
    assert!(matches!(w.assess(Some(f)), Assessment::NotInInbox));
}

#[test]
fn mail_without_a_verdict_is_unsigned() {
    let f = facts("inbox", &["a@stripe.com", "b@c.com"], &["evil.example; dkim=pass header.d=stripe.com"]);
    match worker().assess(Some(f)) {
        Assessment::Unsigned { from } => assert_eq!(from.as_deref(), Some("a@stripe.com")),
        _ => panic!("it is unsigned"),
    }
    match worker().assess(Some(facts("inbox", &[], &[]))) {
        Assessment::Unsigned { from } => assert_eq!(from, None),
        _ => panic!("it is unsigned"),
    }
}

#[test]
fn mail_is_judged_by_the_aligned_signature() {
    let h = "mx.fastmail.com; dkim=pass header.d=mandrillapp.com; dkim=pass header.d=mail.shop.co.uk";
    let mail = signed(facts("inbox", &["Shop <news@www.shop.co.uk>"], &[h]));
    assert_eq!(mail.verdict.signing_domain, "mail.shop.co.uk");
    assert!(mail.verdict.aligned);
    assert_eq!(mail.registrable, "shop.co.uk");
    assert_eq!(mail.from.as_deref(), Some("Shop <news@www.shop.co.uk>"));

    let mail = signed(facts("inbox", &["x@elsewhere.com"], &[h]));
    assert_eq!(mail.verdict.signing_domain, "mandrillapp.com");
    assert!(!mail.verdict.aligned);
    assert_eq!(mail.registrable, "mandrillapp.com");
}

#[test]
fn public_suffix_is_looked_up_itself() {
    let mail = signed(facts("inbox", &[], &["mx.fastmail.com; dkim=pass header.d=co.uk"]));
    assert_eq!(mail.registrable, "co.uk");
}

#[test]
fn forged_header_does_not_help_a_message() {
    let real = "mx.fastmail.com; dkim=pass header.d=young.com";
    let forged = "mx.stripe.com; dkim=pass header.d=stripe.com";
    let with = signed(facts("inbox", &["a@stripe.com"], &[forged, real, forged]));
    let without = signed(facts("inbox", &["a@stripe.com"], &[real]));
    assert_eq!(with.verdict.signing_domain, "young.com");
    assert_eq!(with.verdict.signing_domain, without.verdict.signing_domain);
    assert_eq!(with.verdict.aligned, without.verdict.aligned);
    assert_eq!(with.registrable, without.registrable);
}

#[test]
fn young_domain_is_quarantined() {
    let mail = signed(facts("inbox", &[], &["mx.fastmail.com; dkim=pass header.d=stripe.com"]));
    let mut q = queue();
    for (now, age, expected) in [(365 * DAY - 1, 364, true), (365 * DAY, 365, false), (-DAY, -1, true)] {
        match worker().conclude("id", &mail, Ok(at(0)), at(now), &mut q) {
            Conclusion::Evaluated { age_days, quarantine } => {
                assert_eq!((age_days, quarantine), (age, expected));
            }
            _ => panic!("the date is known"),
        }
    }
    assert!(q.take_snapshot().is_none());
}

#[test]
fn failed_lookup_defers_the_decision() {
    let mail = signed(facts("inbox", &[], &["mx.fastmail.com; dkim=pass header.d=a.stripe.com"]));
    let mut q = queue();
    assert!(q.can_enqueue(at(1000)));
    match worker().conclude("id", &mail, Err(RdapError::UnknownTld("com".into())), at(1000), &mut q) {
        Conclusion::Deferred { error } => assert_eq!(error, "no RDAP service for TLD .com"),
        _ => panic!("it is deferred"),
    }
    let e = entry(&q);
    assert_eq!(e.id, "id");
    assert_eq!(e.registrable_domain, "stripe.com");
    assert_eq!(e.last_error.as_deref(), Some("no RDAP service for TLD .com"));
    assert_eq!(e.next_attempt_at, at(1900));
    assert_eq!(e.attempts, 0);
}

#[test]
fn message_that_left_the_inbox_is_dropped() {
    let w = worker();
    let mut q = waiting_queue();
    assert_eq!(w.recheck("id", Fetched::NotFound, &mut q), Recheck::Gone);
    assert_eq!(ids(&q), vec!["z"]);
    assert_eq!(w.recheck("z", Fetched::Found(facts("archive", &[], &[])), &mut q), Recheck::Moved);
    assert!(ids(&q).is_empty());
}

#[test]
fn message_that_is_still_there_is_looked_up_again() {
    let w = worker();
    let mut q = waiting_queue();
    assert_eq!(w.recheck("id", Fetched::Found(facts("inbox", &[], &[])), &mut q), Recheck::LookUp);
    assert_eq!(w.recheck("id", Fetched::Failed, &mut q), Recheck::Unreachable);
    assert_eq!(ids(&q), vec!["id", "z"]);
    assert!(q.take_snapshot().is_none());
}

#[test]
fn old_domain_settles_a_message() {
    let mut q = waiting_queue();
    let e = first(&q);
    assert_eq!(worker().resolve(&e, Ok(at(0)), at(400 * DAY), &mut q), Resolution::Keep { age_days: 400 });
    assert_eq!(ids(&q), vec!["z"]);
}

#[test]
fn young_domain_settles_a_message_once_it_was_moved() {
    let w = worker();
    let mut q = waiting_queue();
    let e = first(&q);
    assert_eq!(w.resolve(&e, Ok(at(0)), at(3 * DAY), &mut q), Resolution::Quarantine { age_days: 3 });
    assert_eq!(ids(&q), vec!["id", "z"]);
    w.after_move("id", false, &mut q);
    assert_eq!(ids(&q), vec!["id", "z"]);
    w.after_move("id", true, &mut q);
    assert_eq!(ids(&q), vec!["z"]);
}

#[test]
fn failed_attempts_are_counted_until_they_are_used_up() {
    let w = worker();
    let mut q = waiting_queue();
    let e = first(&q);
    assert!(q.can_bump("id", at(900)));
    let r = w.resolve(&e, Err(RdapError::Lookup("x".into())), at(900), &mut q);
    assert_eq!(r, Resolution::Backoff { attempts: 1 });
    let e = first(&q);
    assert_eq!(e.attempts, 1);
    assert_eq!(e.last_error.as_deref(), Some("rdap_failed"));
    assert_eq!(e.next_attempt_at, at(900 + 1800));
    let r = w.resolve(&e, Err(RdapError::NoRegistrationEvent), at(2700), &mut q);
    assert_eq!(r, Resolution::Exhausted);
    assert_eq!(ids(&q), vec!["z"]);
}

#[test]
fn attempt_for_a_message_that_no_longer_waits() {
    let w = worker();
    let mut q = waiting_queue();
    let e = first(&q);
    q.remove("id");
    q.take_snapshot();
    let r = w.resolve(&e, Err(RdapError::UnknownTld("com".into())), at(900), &mut q);
    assert_eq!(r, Resolution::Backoff { attempts: 1 });
    assert!(q.take_snapshot().is_none());
}

#[test]
fn interval_of_the_queue_is_the_configured_one() {
    assert_eq!(worker().cfg.retry_interval, Interval::from_secs(900));
    assert_eq!(queue().due(at(FOREVER)).len(), 0);
}
