use shitmail_jmap_filter::config::{Config, ConfigError, Environment, UrlParts};

fn bare() -> Environment {
    Environment {
        fastmail_api_token: Some("token".to_string()),
        jmap_session_url: None,
        quarantine_mailbox_name: None,
        max_domain_age_days: None,
        retry_interval_min: None,
        retry_max_attempts: None,
        state_dir: None,
        psl_path: None,
        trusted_authserv_ids: None,
        healthz_port: None,
    }
}

fn set(s: &str) -> Option<String> {
    Some(s.to_string())
}

#[test]
fn defaults_apply_to_what_is_not_set() {
    let cfg = Config::from_env(&bare()).unwrap();
    assert_eq!(cfg.fastmail_api_token, "token");
    assert_eq!(cfg.jmap_session_url, "https://api.fastmail.com/jmap/session");
    assert_eq!(cfg.jmap_session_host, "api.fastmail.com");
    assert_eq!(cfg.jmap_base_url, "https://api.fastmail.com");
    assert_eq!(cfg.quarantine_mailbox_name, "quarantine");
    assert_eq!(cfg.max_domain_age_days, 365);
    assert_eq!(cfg.retry_interval.as_secs(), 15 * 60);
    assert_eq!(cfg.retry_max_attempts, 32);
    assert_eq!(cfg.state_dir, "/data");
    assert_eq!(cfg.psl_path, "data/public_suffix_list.dat");
    assert_eq!(cfg.trusted_authserv_ids, vec!["fastmail.com", "messagingengine.com"]);
    assert_eq!(cfg.healthz_port, 8080);
}

#[test]
fn variables_are_taken_up() {
    let env = Environment {
        fastmail_api_token: set(" t "),
        jmap_session_url: set("http://Mail.Example:8443/session"),
        quarantine_mailbox_name: set("young"),
        max_domain_age_days: set("-5"),
        retry_interval_min: set("2"),
        retry_max_attempts: set("+7"),
        state_dir: set(""),
        psl_path: set("list.dat"),
        trusted_authserv_ids: set(" A.com ,, b.COM,\t,c.com"),
        healthz_port: set("80"),
    };
    let cfg = Config::try_from_env(&env).unwrap().unwrap();
    assert_eq!(cfg.fastmail_api_token, " t ");
    assert_eq!(cfg.jmap_session_url, "http://Mail.Example:8443/session");
    assert_eq!(cfg.jmap_session_host, "mail.example");
    assert_eq!(cfg.jmap_base_url, "http://mail.example:8443");
    assert_eq!(cfg.quarantine_mailbox_name, "young");
    assert_eq!(cfg.max_domain_age_days, -5);
    assert_eq!(cfg.retry_interval.as_secs(), 120);
    assert_eq!(cfg.retry_max_attempts, 7);
    assert_eq!(cfg.state_dir, "");
    assert_eq!(cfg.psl_path, "list.dat");
    assert_eq!(cfg.trusted_authserv_ids, vec!["a.com", "b.com", "c.com"]);
    assert_eq!(cfg.healthz_port, 80);
}

#[test]
fn session_url_tells_where_the_server_is() {
    let mut env = bare();
    for (url, host, base) in [
        ("https://api.fastmail.com/jmap/session", "api.fastmail.com", "https://api.fastmail.com"),
        ("https://Mail.example:8443/jmap/session?x#y", "mail.example", "https://mail.example:8443"),
        ("HTTPS://user@mail.example:443", "mail.example", "https://mail.example"),
        ("http://[::1]:80/s", "[::1]", "http://[::1]"),
        ("http://10.0.0.1:5/", "10.0.0.1", "http://10.0.0.1:5"),
        ("http://h:65535", "h", "http://h:65535"),
    ] {
        env.jmap_session_url = set(url);
        let cfg = Config::from_env(&env).unwrap();
        assert_eq!(cfg.jmap_session_url, url);
        assert_eq!(cfg.jmap_session_host, host);
        assert_eq!(cfg.jmap_base_url, base);
    }
}

#[test]
fn numbers_that_cannot_be_read_are_ignored() {
    let mut env = bare();
    env.max_domain_age_days = set("a year");
    env.retry_interval_min = set("-1");
    env.retry_max_attempts = set("4294967296");
    env.healthz_port = set("65536");
    let cfg = Config::from_env(&env).unwrap();
    assert_eq!(cfg.max_domain_age_days, 365);
    assert_eq!(cfg.retry_interval.as_secs(), 900);
    assert_eq!(cfg.retry_max_attempts, 32);
    assert_eq!(cfg.healthz_port, 8080);
}

#[test]
fn token_is_required() {
    let mut env = bare();
    env.fastmail_api_token = None;
    env.jmap_session_url = set("not a url");
    let e = Config::from_env(&env).unwrap_err();
    assert_eq!(e, ConfigError::MissingToken);
    assert_eq!(e.to_string(), "FASTMAIL_API_TOKEN env var is required");
    env.fastmail_api_token = set(" \t\n");
    let e = Config::from_env(&env).unwrap_err();
    assert_eq!(e, ConfigError::EmptyToken);
    assert_eq!(e.to_string(), "FASTMAIL_API_TOKEN must not be empty");
}

#[test]
fn url_must_be_valid_and_have_a_host() {
    let mut env = bare();
    for url in ["api.fastmail.com", "", "/jmap/session"] {
        env.jmap_session_url = set(url);
        let e = Config::from_env(&env).unwrap_err();
        assert_eq!(e, ConfigError::InvalidUrl);
        assert_eq!(e.to_string(), "JMAP_SESSION_URL is not a valid URL");
    }
    for url in ["mailto:me@example.com", "data:,x"] {
        env.jmap_session_url = set(url);
        let e = Config::from_env(&env).unwrap_err();
        assert_eq!(e, ConfigError::NoHost);
        assert_eq!(e.to_string(), "JMAP_SESSION_URL has no host");
    }
}

#[test]
fn parts_of_the_url_are_used_as_given() {
    let parts = |host: Option<&str>, port: Option<u16>| {
        Some(UrlParts { scheme: "s".to_string(), host: host.map(|h| h.to_string()), port })
    };
    let mut env = bare();
    env.jmap_session_url = set("x");
    for (port, base) in [(None, "s://h"), (Some(0), "s://h:0"), (Some(7), "s://h:7"), (Some(1080), "s://h:1080")] {
        let cfg = Config::from_parts(&env, parts(Some("h"), port)).unwrap();
        assert_eq!(cfg.jmap_session_url, "x");
        assert_eq!(cfg.jmap_session_host, "h");
        assert_eq!(cfg.jmap_base_url, base);
    }
    assert_eq!(Config::from_parts(&env, None).unwrap_err(), ConfigError::InvalidUrl);
    assert_eq!(Config::from_parts(&env, parts(None, None)).unwrap_err(), ConfigError::NoHost);
}

#[test]
fn interval_has_to_fit() {
    let mut env = bare();
    env.retry_interval_min = set("307445734561825860");
    let cfg = Config::try_from_env(&env).unwrap().unwrap();
    assert_eq!(cfg.retry_interval.as_secs(), 18_446_744_073_709_551_600);
    env.retry_interval_min = set("307445734561825861");
    assert!(Config::try_from_env(&env).is_none());
    env.retry_interval_min = set("18446744073709551616");
    assert_eq!(Config::try_from_env(&env).unwrap().unwrap().retry_interval.as_secs(), 900);
}

#[test]
fn other_errors_come_before_the_interval() {
    let mut env = bare();
    env.retry_interval_min = set("307445734561825861");
    env.jmap_session_url = set("mailto:x");
    assert_eq!(Config::from_env(&env).unwrap_err(), ConfigError::NoHost);
    assert_eq!(Config::try_from_env(&env).unwrap().unwrap_err(), ConfigError::NoHost);
    env.jmap_session_url = set("x");
    assert_eq!(Config::try_from_env(&env).unwrap().unwrap_err(), ConfigError::InvalidUrl);
    env.fastmail_api_token = set(" ");
    assert_eq!(Config::try_from_env(&env).unwrap().unwrap_err(), ConfigError::EmptyToken);
    env.fastmail_api_token = None;
    assert_eq!(Config::try_from_env(&env).unwrap().unwrap_err(), ConfigError::MissingToken);
}
