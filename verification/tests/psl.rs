use shitmail_jmap_filter::domain::psl::Psl;

const SMALL_PSL: &str = r#"
// ===BEGIN ICANN DOMAINS===
com
net
uk
co.uk
ac.uk
jp
*.kawasaki.jp
!city.kawasaki.jp
// ===BEGIN PRIVATE DOMAINS===
s3.amazonaws.com
"#;

fn psl() -> Psl {
    Psl::parse(SMALL_PSL)
}

#[test]
fn simple_com() {
    assert_eq!(psl().registrable_domain("foo.bar.com").as_deref(), Some("bar.com"));
}

#[test]
fn co_uk() {
    assert_eq!(psl().registrable_domain("foo.bar.co.uk").as_deref(), Some("bar.co.uk"));
}

#[test]
fn ac_uk_separate_from_co_uk() {
    assert_eq!(psl().registrable_domain("foo.bar.ac.uk").as_deref(), Some("bar.ac.uk"));
}

#[test]
fn private_suffix() {
    assert_eq!(
        psl().registrable_domain("bucket.s3.amazonaws.com").as_deref(),
        Some("bucket.s3.amazonaws.com")
    );
}

#[test]
fn wildcard_kawasaki() {
    // "foo.kawasaki.jp" is a public suffix itself, so there is no registrable domain.
    assert_eq!(psl().registrable_domain("foo.kawasaki.jp"), None);
    assert_eq!(
        psl().registrable_domain("bar.foo.kawasaki.jp").as_deref(),
        Some("bar.foo.kawasaki.jp")
    );
}

#[test]
fn exception_city_kawasaki_jp() {
    // The exception makes the public suffix "kawasaki.jp".
    assert_eq!(
        psl().registrable_domain("city.kawasaki.jp").as_deref(),
        Some("city.kawasaki.jp")
    );
    assert_eq!(
        psl().registrable_domain("ward.city.kawasaki.jp").as_deref(),
        Some("city.kawasaki.jp")
    );
}

#[test]
fn single_label_returns_none() {
    assert_eq!(psl().registrable_domain("com"), None);
    assert_eq!(psl().registrable_domain("localhost"), None);
}

#[test]
fn trailing_dot_and_case() {
    assert_eq!(psl().registrable_domain("Foo.Bar.COM.").as_deref(), Some("bar.com"));
}

#[test]
fn host_without_a_rule_has_a_suffix_of_one_label() {
    assert_eq!(psl().registrable_domain("a.b.example.dev").as_deref(), Some("example.dev"));
    assert_eq!(Psl::parse("").registrable_domain("a.b.c").as_deref(), Some("b.c"));
}

#[test]
fn empty_labels_have_no_registrable_domain() {
    for host in ["", ".", "...", "foo..com", ".com", ".foo.com", "   "] {
        assert_eq!(psl().registrable_domain(host), None, "{:?}", host);
    }
}

#[test]
fn registrable_domain_has_itself_as_registrable_domain() {
    for host in ["foo.bar.com", "x.y.co.uk", "ward.city.kawasaki.jp", "q.bar.foo.kawasaki.jp"] {
        let d = psl().registrable_domain(host).unwrap();
        assert_eq!(psl().registrable_domain(&d), Some(d));
    }
}

#[test]
fn whitespace_inside_a_host_is_kept() {
    let d = psl().registrable_domain("a. b.com").unwrap();
    assert_eq!(d, " b.com");
    assert_eq!(psl().registrable_domain(&d).as_deref(), Some("b.com"));
}

#[test]
fn case_and_trailing_dots_do_not_matter() {
    assert_eq!(psl().registrable_domain("FOO.bar.Com"), psl().registrable_domain("foo.bar.com"));
    assert_eq!(psl().registrable_domain("foo.bar.com..."), psl().registrable_domain("foo.bar.com"));
    assert_eq!(psl().registrable_domain(" foo.bar.com\t"), psl().registrable_domain("foo.bar.com"));
}

#[test]
fn rule_is_the_first_word_of_its_line_in_small_letters() {
    let list = "  Co.UK  trailing words\r\n//com\n\n\tcom // rest";
    let p = Psl::parse(list);
    assert_eq!(p.registrable_domain("a.b.co.uk").as_deref(), Some("b.co.uk"));
    assert_eq!(p.registrable_domain("a.b.com").as_deref(), Some("b.com"));
}

#[test]
fn longest_rule_wins() {
    let p = Psl::parse("com\nexample.com\nb.example.com");
    assert_eq!(p.registrable_domain("x.a.b.example.com").as_deref(), Some("a.b.example.com"));
    assert_eq!(p.registrable_domain("x.c.example.com").as_deref(), Some("c.example.com"));
    assert_eq!(p.registrable_domain("x.other.com").as_deref(), Some("other.com"));
}

#[test]
fn vendored_psl_resolves_real_domains() {
    let psl = Psl::parse(
        "// ===BEGIN ICANN DOMAINS===\n\n// com : https://example.org\ncom\n\n// de : https://www.denic.de\nde\ncom.de\n\n// uk : https://www.nominet.uk\nuk\nac.uk\nco.uk\n\n// ===END ICANN DOMAINS===\n// ===BEGIN PRIVATE DOMAINS===\ns3.amazonaws.com\n*.compute.amazonaws.com\n// ===END PRIVATE DOMAINS===\n",
    );
    assert_eq!(psl.registrable_domain("mail.google.com").as_deref(), Some("google.com"));
    assert_eq!(psl.registrable_domain("foo.bar.co.uk").as_deref(), Some("bar.co.uk"));
    assert_eq!(psl.registrable_domain("foo.example.de").as_deref(), Some("example.de"));
    assert_eq!(
        psl.registrable_domain("bucket.s3.amazonaws.com").as_deref(),
        Some("bucket.s3.amazonaws.com")
    );
}

#[test]
fn length_of_the_public_suffix() {
    let psl = Psl::parse("jp\n*.kawasaki.jp\n!city.kawasaki.jp");
    let len = |labels: &[&str]| {
        let labels: Vec<Vec<char>> = labels.iter().map(|l| l.chars().collect()).collect();
        psl.longest_matching_suffix(&labels)
    };
    assert_eq!(len(&["kawasaki", "jp"]), Some(1));
    assert_eq!(len(&["a", "foo", "kawasaki", "jp"]), Some(3));
    assert_eq!(len(&["ward", "city", "kawasaki", "jp"]), Some(2));
    assert_eq!(len(&["a", "b", "zz"]), Some(1));
    assert_eq!(len(&[]), None);
}
