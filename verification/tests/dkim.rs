use shitmail_jmap_filter::dkim::scan::{is_balanced, split_entries, tokenize};
use shitmail_jmap_filter::dkim::{authserv_matches, extract_verified_domain, parse_authres};
use std::cell::RefCell;

fn psl(d: &str) -> Option<String> {
    let parts: Vec<&str> = d.split('.').collect();
    if parts.len() >= 2 {
        Some(parts[parts.len() - 2..].join("."))
    } else {
        None
    }
}

fn trusted() -> Vec<String> {
    vec!["fastmail.com".into(), "messagingengine.com".into()]
}

fn one(h: &str, from: Option<&str>) -> Option<(String, bool)> {
    extract_verified_domain(&[h.to_string()], &trusted(), from, psl)
        .map(|v| (v.signing_domain, v.aligned))
}

#[test]
fn aligned_pass_is_picked() {
    let h = vec!["mx1.messagingengine.com; dkim=pass header.d=stripe.com header.i=@stripe.com; spf=pass smtp.mailfrom=stripe.com".to_string()];
    let v = extract_verified_domain(&h, &trusted(), Some("stripe.com"), psl).unwrap();
    assert_eq!(v.signing_domain, "stripe.com");
    assert!(v.aligned);
}

#[test]
fn aligned_preferred_over_unaligned() {
    let h = vec!["mx1.messagingengine.com; dkim=pass header.d=mandrillapp.com; dkim=pass header.d=stripe.com header.i=@stripe.com".to_string()];
    let v = extract_verified_domain(&h, &trusted(), Some("stripe.com"), psl).unwrap();
    assert_eq!(v.signing_domain, "stripe.com");
    assert!(v.aligned);
}

#[test]
fn untrusted_authserv_ignored() {
    let h = vec!["evil.example; dkim=pass header.d=stripe.com".to_string()];
    assert!(extract_verified_domain(&h, &trusted(), Some("stripe.com"), psl).is_none());
}

#[test]
fn dkim_fail_ignored() {
    let h = vec!["mx1.messagingengine.com; dkim=fail header.d=stripe.com".to_string()];
    assert!(extract_verified_domain(&h, &trusted(), Some("stripe.com"), psl).is_none());
}

#[test]
fn no_dkim_returns_none() {
    let h = vec!["mx1.messagingengine.com; spf=pass smtp.mailfrom=stripe.com".to_string()];
    assert!(extract_verified_domain(&h, &trusted(), Some("stripe.com"), psl).is_none());
}

#[test]
fn folded_header_parsed() {
    let h = vec!["mx1.messagingengine.com;\r\n  dkim=pass\r\n    header.d=stripe.com".to_string()];
    let v = extract_verified_domain(&h, &trusted(), None, psl).unwrap();
    assert_eq!(v.signing_domain, "stripe.com");
}

#[test]
fn subdomain_authserv_id_accepted() {
    let h = vec!["mx5.messagingengine.com; dkim=pass header.d=stripe.com".to_string()];
    let v = extract_verified_domain(&h, &trusted(), None, psl).unwrap();
    assert_eq!(v.signing_domain, "stripe.com");
}

#[test]
fn no_headers_give_no_verdict() {
    assert!(extract_verified_domain(&[], &trusted(), Some("a.com"), psl).is_none());
    assert_eq!(one("", None), None);
    assert_eq!(one(";", None), None);
    assert_eq!(one("mx.fastmail.com", None), None);
}

#[test]
fn first_verdict_counts_if_none_is_aligned() {
    let h = "mx.fastmail.com; dkim=pass header.d=one.com; dkim=pass header.d=two.com";
    assert_eq!(one(h, Some("three.com")), Some(("one.com".to_string(), false)));
    assert_eq!(one(h, None), Some(("one.com".to_string(), false)));
}

#[test]
fn first_aligned_verdict_counts() {
    let h = "mx.fastmail.com; dkim=pass header.d=x.com; dkim=pass header.d=a.two.com; dkim=pass header.d=b.two.com";
    assert_eq!(one(h, Some("TWO.com")), Some(("a.two.com".to_string(), true)));
}

#[test]
fn forged_header_changes_no_verdict() {
    let real = "mx.fastmail.com; dkim=pass header.d=young.example".to_string();
    let forged = "stripe.com; dkim=pass header.d=stripe.com".to_string();
    for headers in [vec![real.clone(), forged.clone()], vec![forged, real]] {
        let v = extract_verified_domain(&headers, &trusted(), Some("stripe.com"), psl).unwrap();
        assert_eq!(v.signing_domain, "young.example");
        assert!(!v.aligned);
    }
}

#[test]
fn comments_are_skipped() {
    let h = "mx.fastmail.com (a (nested) comment); dkim=pass (2048-bit key) header.d=stripe.com";
    assert_eq!(one(h, None), Some(("stripe.com".to_string(), false)));
}

#[test]
fn quoted_domain_is_unquoted_and_lowered() {
    let h = "mx.fastmail.com; dkim=pass header.d=\"Stripe.COM\"";
    assert_eq!(one(h, Some("stripe.com")), Some(("stripe.com".to_string(), true)));
}

#[test]
fn empty_domain_is_no_verdict() {
    assert_eq!(one("mx.fastmail.com; dkim=pass header.d=", None), None);
    assert_eq!(one("mx.fastmail.com; dkim=pass", None), None);
}

#[test]
fn method_and_result_ignore_case() {
    assert_eq!(
        one("MX.Fastmail.Com; DKIM=Pass HEADER.D=stripe.com", None).is_some(),
        one("mx.fastmail.com; dkim=pass header.d=stripe.com", None).is_some()
    );
}

#[test]
fn authserv_id_must_match_a_whole_label() {
    let chars = |s: &str| s.chars().collect::<Vec<char>>();
    assert!(authserv_matches(&chars("fastmail.com"), &chars("fastmail.com")));
    assert!(authserv_matches(&chars("fastmail.com"), &chars("mx.fastmail.com")));
    assert!(!authserv_matches(&chars("fastmail.com"), &chars("evilfastmail.com")));
    assert!(!authserv_matches(&chars("mx.fastmail.com"), &chars("fastmail.com")));
}

fn parsed(raw: &str) -> Option<(String, Vec<(String, String, Option<String>)>)> {
    let text = |v: &Vec<char>| v.iter().collect::<String>();
    parse_authres(&raw.chars().collect::<Vec<char>>()).map(|(authserv, methods)| {
        let methods = methods
            .iter()
            .map(|m| (text(&m.method), text(&m.result), m.header_d.as_ref().map(text)))
            .collect();
        (text(&authserv), methods)
    })
}

fn dkim_pass(domain: &str) -> Option<(String, Vec<(String, String, Option<String>)>)> {
    Some((
        "fastmail.com".to_string(),
        vec![("dkim".to_string(), "pass".to_string(), Some(domain.to_string()))],
    ))
}

#[test]
fn semicolon_in_a_comment_ends_no_entry() {
    assert_eq!(
        parsed("fastmail.com; dkim=pass (2048-bit key; unprotected) header.d=example.com"),
        dkim_pass("example.com")
    );
    assert_eq!(
        parsed("fastmail.com (a; (b;) c;); dkim=pass header.d=example.com"),
        dkim_pass("example.com")
    );
}

#[test]
fn semicolon_in_a_quoted_string_ends_no_entry() {
    assert_eq!(
        parsed("fastmail.com; dkim=pass reason=\"good; (very\" header.d=example.com"),
        dkim_pass("example.com")
    );
}

#[test]
fn entries_are_split_at_the_other_semicolons() {
    let pieces: Vec<String> = split_entries(&"a;(b;c);\"d;\";;".chars().collect::<Vec<char>>())
        .iter()
        .map(|p| p.iter().collect())
        .collect();
    assert_eq!(pieces, vec!["a", "(b;c)", "\"d;\"", "", ""]);
}

#[test]
fn whitespace_and_comments_may_stand_around_the_parts_of_a_property() {
    for raw in [
        "fastmail.com; dkim = pass header.d=example.com",
        "fastmail.com; dkim =pass header.d= example.com",
        "fastmail.com; dkim= pass header.d =example.com",
        "fastmail.com; dkim (c) = (d) pass (e) header . d (f) = (g) example.com (h)",
        "fastmail.com; dkim=(c)pass header. d=example.com",
        "fastmail.com; dkim=pass header .d=\"example.com\"",
    ] {
        assert_eq!(parsed(raw), dkim_pass("example.com"), "{}", raw);
    }
}

#[test]
fn version_of_a_method_is_left_out() {
    for raw in [
        "fastmail.com; dkim/1=pass header.d=example.com",
        "fastmail.com; dkim / 1 = pass header.d=example.com",
        "fastmail.com 1; dkim/ 12 =pass header.d=example.com",
    ] {
        assert_eq!(parsed(raw), dkim_pass("example.com"), "{}", raw);
    }
    let odd = parsed("fastmail.com; dkim/x=pass header.d=example.com").unwrap();
    assert_eq!(odd.1[0].0, "dkim/x");
}

#[test]
fn words_that_are_no_property_are_skipped() {
    for raw in [
        "fastmail.com; dkim=pass stray header.d=example.com stray",
        "fastmail.com; dkim=pass a. header.d=example.com",
        "fastmail.com; dkim=pass a . header.d=example.com",
        "fastmail.com; dkim=pass a / header.d=example.com",
        "fastmail.com; dkim=pass header.b=ab/ header.d=example.com",
        "fastmail.com; dkim=pass reason=ok. header.d=example.com",
        "fastmail.com; dkim=pass header.b=a= header.d=example.com",
        "fastmail.com; dkim=pass s= header.d=example.com",
        "fastmail.com; dkim=pass x.y.z=1 header.d=example.com",
    ] {
        assert_eq!(parsed(raw), dkim_pass("example.com"), "{}", raw);
    }
    assert_eq!(parsed("fastmail.com; stray dkim=pass header.d=example.com"), Some(("fastmail.com".to_string(), vec![])));
    assert_eq!(parsed("fastmail.com; none"), Some(("fastmail.com".to_string(), vec![])));
    assert_eq!(parsed("fastmail.com; none (at all)"), Some(("fastmail.com".to_string(), vec![])));
}

#[test]
fn property_without_a_value_does_not_take_the_next_one() {
    assert_eq!(parsed("fastmail.com; dkim=pass header.d= a=b"), dkim_pass(""));
    assert_eq!(parsed("fastmail.com; dkim=pass s= header.d= x"), dkim_pass(""));
    let m = vec!["m".to_string()];
    let verdict = |h: &str| {
        extract_verified_domain(&[h.to_string()], &m, None, psl).map(|v| v.signing_domain)
    };
    assert_eq!(verdict("m;dkim=pass header.d= a=b"), None);
    assert_eq!(verdict("m;dkim=pass s= header.d=x").as_deref(), Some("x"));
    assert_eq!(verdict("m;dkim=pass a. header.d=x").as_deref(), Some("x"));
    assert_eq!(verdict("m;a=b(;dkim=pass header.d=x").as_deref(), Some("x"));
    assert_eq!(verdict("e(;).m;dkim=pass header.d=x"), None);
    assert_eq!(verdict("e\";\".m;dkim=pass header.d=x"), None);
}

#[test]
fn id_ends_at_the_first_semicolon() {
    let id = |raw: &str| parsed(raw).map(|(id, _)| id);
    assert_eq!(id("\"a;").as_deref(), Some("\"a"));
    assert_eq!(id("e(;).m;dkim=pass header.d=x").as_deref(), Some("e("));
    assert_eq!(id("mx.fastmail.com 1; x"), Some("mx.fastmail.com".to_string()));
    assert_eq!(id("\t mx(c) y"), Some("mx(c)".to_string()));
    assert_eq!(id(" ; dkim=pass"), None);
    assert_eq!(id(""), None);
}

#[test]
fn open_quote_or_comment_does_not_swallow_the_entries_after_it() {
    for raw in [
        "fastmail.com; a=b(; dkim=pass header.d=example.com",
        "fastmail.com; a=\"b; dkim=pass header.d=example.com",
        "fastmail.com; a=(\\); dkim=pass header.d=example.com",
    ] {
        let (_, methods) = parsed(raw).unwrap();
        assert_eq!(methods.len(), 2, "{}", raw);
        assert_eq!(methods[1..], dkim_pass("example.com").unwrap().1[..], "{}", raw);
    }
}

#[test]
fn backslash_inside_quotes_and_comments_takes_the_next_character() {
    assert_eq!(
        parsed("fastmail.com; dkim=pass (a \\) ; b) header.d=example.com"),
        dkim_pass("example.com")
    );
    assert_eq!(
        parsed("fastmail.com; dkim=pass reason=\"a \\\" ; b\" header.d=example.com"),
        dkim_pass("example.com")
    );
    let chars = |s: &str| s.chars().collect::<Vec<char>>();
    assert!(is_balanced(&chars("(\\))\"\\\"\"")));
    assert!(!is_balanced(&chars("(\\)")));
    assert!(!is_balanced(&chars("\"")));
    let words = |s: &str, escapes: bool| {
        tokenize(&chars(s), escapes).iter().map(|t| t.iter().collect()).collect::<Vec<String>>()
    };
    assert_eq!(words("a=\"b\\\" c\" d", true), vec!["a=\"b\\\" c\"", "d"]);
    assert_eq!(words("a=\"b\\\" c\" d", false), vec!["a=\"b\\\"", "c\" d"]);
    assert_eq!(words("a (b (c) d) e(f)g", false), vec!["a", "eg"]);
}

#[test]
fn last_signing_domain_of_an_entry_counts() {
    assert_eq!(parsed("fastmail.com; dkim=pass header.d=a.com header.d=example.com header.i=@x"), dkim_pass("example.com"));
}

#[test]
fn folding_a_header_changes_nothing() {
    let raw = "mx.fastmail.com  1; dkim = pass  (key; x) header.d=a.com;  none ; spf=pass";
    let expected = parsed(raw);
    assert!(expected.is_some());
    for fold in ["\r\n ", "\r\n\t"] {
        assert_eq!(parsed(&raw.replace(' ', fold)), expected);
        for (i, _) in raw.match_indices(' ') {
            let folded = format!("{}{}{}", &raw[..i], fold, &raw[i + 1..]);
            assert_eq!(parsed(&folded), expected, "{:?}", folded);
        }
    }
}

#[test]
fn only_verified_domains_are_asked_about() {
    let asked = RefCell::new(Vec::new());
    let ask = |d: &str| {
        asked.borrow_mut().push(d.to_string());
        None
    };
    let headers = vec![
        "evil.example; dkim=pass header.d=no.com".to_string(),
        "mx.fastmail.com; dkim=fail header.d=no.com; dkim=pass header.d=\" Yes.COM\"; spf=pass header.d=no.com".to_string(),
    ];
    let v = extract_verified_domain(&headers, &trusted(), None, ask).unwrap();
    assert!(!v.aligned);
    assert!(asked.borrow().is_empty());
    let v = extract_verified_domain(&headers, &trusted(), Some("yes.com"), ask).unwrap();
    assert!(!v.aligned);
    assert_eq!(*asked.borrow(), vec!["yes.com".to_string()]);
}
