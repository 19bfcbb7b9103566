use shitmail_jmap_filter::jmap::{created_ids, found_mailbox, EmailFacts, HeaderText};

fn strings(list: &[&str]) -> Vec<String> {
    list.iter().map(|s| s.to_string()).collect()
}

#[test]
fn created_messages_are_sorted_and_listed_once() {
    assert_eq!(created_ids(strings(&["b", "a", "b", "aa"])), strings(&["a", "aa", "b"]));
    assert_eq!(created_ids(vec![]), strings(&[]));
    assert_eq!(created_ids(strings(&["x"])), strings(&["x"]));
}

#[test]
fn order_is_that_of_std() {
    let ids = ["Z", "a", "", "é", "日本", "ab", "A", "\u{10000}", "\u{ffff}", "z", "a b", "aé", "Z", ""];
    let mut expected = strings(&ids);
    expected.sort();
    expected.dedup();
    assert_eq!(created_ids(strings(&ids)), expected);
    let mut backwards = strings(&ids);
    backwards.reverse();
    assert_eq!(created_ids(backwards), expected);
}

#[test]
fn last_mailbox_that_was_found_is_used() {
    assert_eq!(found_mailbox(vec![]), None);
    assert_eq!(found_mailbox(strings(&["one"])).as_deref(), Some("one"));
    assert_eq!(found_mailbox(strings(&["one", "two"])).as_deref(), Some("two"));
}

#[test]
fn facts_are_collected() {
    let f = EmailFacts::new(strings(&["m"]), Some(strings(&["a@b"])), HeaderText::All(strings(&["x", "y"])));
    assert_eq!(f.mailbox_ids, strings(&["m"]));
    assert_eq!(f.from_addresses, strings(&["a@b"]));
    assert_eq!(f.auth_results_headers, strings(&["x", "y"]));
    let f = EmailFacts::new(vec![], None, HeaderText::One("x".to_string()));
    assert!(f.mailbox_ids.is_empty());
    assert!(f.from_addresses.is_empty());
    assert_eq!(f.auth_results_headers, strings(&["x"]));
    let f = EmailFacts::new(vec![], Some(vec![]), HeaderText::Absent);
    assert!(f.auth_results_headers.is_empty());
}

#[test]
fn message_is_in_its_mailboxes() {
    let f = EmailFacts::new(strings(&["m", "n"]), None, HeaderText::Absent);
    assert!(f.in_mailbox(&"m".to_string()));
    assert!(f.in_mailbox(&"n".to_string()));
    assert!(!f.in_mailbox(&"M".to_string()));
    assert!(!f.in_mailbox(&"".to_string()));
}
