use shitmail_jmap_filter::domain::cache::{AgeCache, CacheEntry};
use shitmail_jmap_filter::domain::rdap::{
    age_days, ensure_trailing_slash, lookup, malformed_domain, BootstrapFailure, RdapAction,
    RdapClient, RdapError, RdapEvent, RdapResponse,
};
use shitmail_jmap_filter::state::StateFile;
use shitmail_jmap_filter::time::Timestamp;

fn at(secs: i64) -> Timestamp {
    Timestamp::new(secs, 0).unwrap()
}

fn client() -> RdapClient {
    RdapClient::new(AgeCache::load(StateFile::Missing).ok().unwrap())
}

fn services() -> Vec<(Vec<String>, Vec<String>)> {
    vec![
        (vec!["COM".into(), "net".into()], vec!["https://one.example/rdap".into(), "https://no.example/".into()]),
        (vec!["dead".into()], vec![]),
        (vec!["org".into(), "net".into()], vec!["https://two.example/".into()]),
    ]
}

fn event(action: &str, secs: i64) -> RdapEvent {
    RdapEvent { event_action: action.to_string(), event_date: at(secs) }
}

fn text(action: RdapAction) -> String {
    match action {
        RdapAction::Done(Ok(t)) => format!("ok {}", t.secs()),
        RdapAction::Done(Err(e)) => e.to_string(),
        RdapAction::FetchBootstrap => "bootstrap".to_string(),
        RdapAction::Request(url) => url,
    }
}

#[test]
fn errors_have_messages() {
    assert_eq!(RdapError::UnknownTld("zz".into()).to_string(), "no RDAP service for TLD .zz");
    assert_eq!(RdapError::NoRegistrationEvent.to_string(), "RDAP response had no registration event");
    assert_eq!(RdapError::Lookup("x".into()).to_string(), "RDAP lookup failed: x");
}

#[test]
fn slash_is_put_at_the_end_once() {
    assert_eq!(ensure_trailing_slash("https://a"), "https://a/");
    assert_eq!(ensure_trailing_slash("https://a/"), "https://a/");
    assert_eq!(ensure_trailing_slash(""), "/");
}

#[test]
fn whole_lookup_asks_for_the_registries_and_then_the_registry() {
    let mut c = client();
    assert_eq!(text(c.registration_date("stripe.com", at(0))), "bootstrap");
    assert_eq!(
        text(c.on_bootstrap("stripe.com", Ok(services()), at(0))),
        "https://one.example/rdap/domain/stripe.com"
    );
    let events = RdapResponse::Events(vec![event("last changed", 1), event("Registration", 500), event("registration", 9)]);
    let url = "https://one.example/rdap/domain/stripe.com";
    assert_eq!(text(c.on_response("stripe.com", url, events, at(0))), "ok 500");
    // It is remembered for thirty days.
    assert_eq!(text(c.registration_date("stripe.com", at(30 * 86_400))), "ok 500");
    assert_eq!(text(c.registration_date("stripe.com", at(30 * 86_400 + 1))), url);
    // The registries are known now.
    assert_eq!(text(c.registration_date("a.net", at(0))), "https://two.example/domain/a.net");
}

#[test]
fn unknown_top_level_domain() {
    let mut c = client();
    assert_eq!(text(c.registration_date("a.dead", at(0))), "bootstrap");
    assert_eq!(text(c.on_bootstrap("a.dead", Ok(services()), at(0))), "no RDAP service for TLD .dead");
    assert_eq!(text(c.registration_date("a.dead", at(3600))), "no RDAP service for TLD .dead");
    assert_eq!(text(c.registration_date("a.b.zz", at(0))), "no RDAP service for TLD .zz");
    let list = c.flush().unwrap();
    assert!(list.iter().all(|(_, e)| e.error.as_deref() == Some("unknown_tld")));
    assert!(c.flush().is_none());
}

#[test]
fn top_level_domain_is_looked_for_as_it_is() {
    let mut c = client();
    c.registration_date("a.com", at(0));
    c.on_bootstrap("a.com", Ok(services()), at(0));
    assert_eq!(text(c.registration_date("a.COM", at(0))), "no RDAP service for TLD .COM");
}

#[test]
fn domain_without_a_top_level_domain_is_malformed() {
    let mut c = client();
    assert_eq!(
        text(c.registration_date("a\"\n.", at(0))),
        "RDAP lookup failed: malformed domain \"a\\\"\\n.\""
    );
    assert_eq!(text(c.registration_date("", at(0))), "RDAP lookup failed: malformed domain \"\"");
    assert_eq!(malformed_domain("q").to_string(), "RDAP lookup failed: malformed domain q");
}

#[test]
fn failed_bootstrap_is_remembered_for_an_hour() {
    let mut c = client();
    c.registration_date("a.com", at(0));
    assert_eq!(
        text(c.on_bootstrap("a.com", Err(BootstrapFailure::Fetch), at(0))),
        "RDAP lookup failed: fetching RDAP bootstrap"
    );
    assert_eq!(
        text(c.registration_date("a.com", at(3600))),
        "RDAP lookup failed: fetching RDAP bootstrap"
    );
    assert_eq!(text(c.registration_date("a.com", at(3601))), "bootstrap");
    assert_eq!(
        text(c.on_bootstrap("a.com", Err(BootstrapFailure::Decode), at(4000))),
        "RDAP lookup failed: decoding RDAP bootstrap"
    );
}

#[test]
fn known_registries_are_kept() {
    let mut c = client();
    c.registration_date("a.com", at(0));
    c.on_bootstrap("a.com", Ok(services()), at(0));
    let other = vec![(vec!["com".to_string()], vec!["https://other.example".to_string()])];
    assert_eq!(
        text(c.on_bootstrap("a.com", Ok(other), at(0))),
        "https://one.example/rdap/domain/a.com"
    );
}

#[test]
fn answers_are_read() {
    let url = "https://r/domain/a.com";
    let say = |r: RdapResponse| match lookup(r, url) {
        Ok(t) => format!("ok {}", t.secs()),
        Err(e) => e.to_string(),
    };
    assert_eq!(say(RdapResponse::Failed("timeout".into())), "RDAP lookup failed: request: timeout");
    assert_eq!(
        say(RdapResponse::Status("404 Not Found".into())),
        "RDAP lookup failed: HTTP 404 Not Found from https://r/domain/a.com"
    );
    assert_eq!(say(RdapResponse::Undecodable("eof".into())), "RDAP lookup failed: json decode: eof");
    assert_eq!(say(RdapResponse::Events(vec![])), "RDAP response had no registration event");
    assert_eq!(
        say(RdapResponse::Events(vec![event("expiration", 3)])),
        "RDAP response had no registration event"
    );
    assert_eq!(say(RdapResponse::Events(vec![event("REGISTRATION", -3)])), "ok -3");
}

#[test]
fn remembered_entries_are_read() {
    let entry = |error: Option<&str>| CacheEntry {
        registered: None,
        fetched_at: at(0),
        error: error.map(|s| s.to_string()),
    };
    let list = vec![
        ("x.co.zz".to_string(), entry(Some("unknown_tld"))),
        ("b.com".to_string(), entry(Some("boom"))),
        ("c.com".to_string(), entry(None)),
    ];
    let mut c = RdapClient::new(AgeCache::load(StateFile::Parsed(list)).ok().unwrap());
    assert_eq!(text(c.registration_date("x.co.zz", at(0))), "no RDAP service for TLD .zz");
    assert_eq!(text(c.registration_date("b.com", at(0))), "RDAP lookup failed: boom");
    assert_eq!(text(c.registration_date("c.com", at(0))), "RDAP response had no registration event");
    assert!(c.flush().is_none());
}

#[test]
fn age_is_counted_in_whole_days() {
    assert_eq!(age_days(at(0), at(365 * 86_400 - 1)), 364);
    assert_eq!(age_days(at(0), at(365 * 86_400)), 365);
    assert_eq!(age_days(at(86_400), at(0)), -1);
}

#[test]
fn remembered_failures_come_back_as_they_were() {
    let url = "https://one.example/rdap/domain/a.com";
    let mut c = client();
    c.registration_date("a.com", at(0));
    c.on_bootstrap("a.com", Ok(services()), at(0));
    c.on_response("a.com", url, RdapResponse::Events(vec![]), at(0));
    assert!(matches!(c.registration_date("a.com", at(3600)), RdapAction::Done(Err(RdapError::NoRegistrationEvent))));
    c.on_response("a.com", url, RdapResponse::Failed("x".into()), at(0));
    match c.registration_date("a.com", at(3600)) {
        RdapAction::Done(Err(RdapError::Lookup(s))) => assert_eq!(s, "request: x"),
        _ => panic!("the failure is remembered"),
    }
    c.registration_date("b.zz", at(0));
    match c.registration_date("b.zz", at(1)) {
        RdapAction::Done(Err(RdapError::UnknownTld(t))) => assert_eq!(t, "zz"),
        _ => panic!("the failure is remembered"),
    }
    // The file holds the messages.
    let mut errors: Vec<String> = c.flush().unwrap().into_iter().filter_map(|(_, e)| e.error).collect();
    errors.sort();
    assert_eq!(errors, vec!["RDAP lookup failed: request: x", "unknown_tld"]);
}
